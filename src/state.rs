//! In-place decoding of the encoded trie.
use vstd::prelude::*;

verus! {

/// Value of a big-endian target delta of one, two or three bytes. The one-
/// and two-byte forms are two's complement, the three-byte form is biased by
/// `2^23`.
pub open spec fn delta_value(b: Seq<u8>) -> int {
    if b.len() == 1 {
        if b[0] < 128 { b[0] as int } else { b[0] as int - 256 }
    } else if b.len() == 2 {
        let u = b[0] as int * 256 + b[1] as int;
        if u < 32768 { u } else { u - 65536 }
    } else {
        b[0] as int * 65536 + b[1] as int * 256 + b[2] as int - 8388608
    }
}

/// Decode a signed number with 1, 2 or 3 bytes.
pub fn from_be_bytes(buf: &[u8]) -> (r: isize)
    requires
        1 <= buf@.len() <= 3,
    ensures
        r as int == delta_value(buf@),
{
    if buf.len() == 1 {
        let b = buf[0] as isize;
        if b < 128 { b } else { b - 256 }
    } else if buf.len() == 2 {
        let u = buf[0] as isize * 256 + buf[1] as isize;
        if u < 32768 { u } else { u - 65536 }
    } else {
        buf[0] as isize * 65536 + buf[1] as isize * 256 + buf[2] as isize - 8388608
    }
}


/// Header byte of the node at `a`: `has_levels:1 | stride:2 | count_low:5`.
pub open spec fn header(d: Seq<u8>, a: int) -> int {
    d[a] as int
}

pub open spec fn has_levels(d: Seq<u8>, a: int) -> bool {
    header(d, a) >= 128
}

/// Byte width of the node's target deltas.
pub open spec fn stride(d: Seq<u8>, a: int) -> int {
    (header(d, a) / 32) % 4
}

/// Low transition count; 31 announces an extended count byte.
pub open spec fn count_low(d: Seq<u8>, a: int) -> int {
    header(d, a) % 32
}

/// Position of the (optional) level reference.
pub open spec fn lref_pos(d: Seq<u8>, a: int) -> int {
    if count_low(d, a) == 31 { a + 2 } else { a + 1 }
}

/// Number of transitions of the node.
pub open spec fn count(d: Seq<u8>, a: int) -> int {
    if count_low(d, a) == 31 { d[a + 1] as int } else { count_low(d, a) }
}

/// Blob offset of the node's packed level vector.
pub open spec fn level_offset(d: Seq<u8>, a: int) -> int {
    d[lref_pos(d, a)] as int * 16 + d[lref_pos(d, a) + 1] as int / 16
}

/// Length of the node's packed level vector.
pub open spec fn level_len(d: Seq<u8>, a: int) -> int {
    if has_levels(d, a) { d[lref_pos(d, a) + 1] as int % 16 } else { 0 }
}

/// Packed level bytes of the node.
pub open spec fn packed_levels(d: Seq<u8>, a: int) -> Seq<u8> {
    if has_levels(d, a) {
        d.subrange(level_offset(d, a), level_offset(d, a) + level_len(d, a))
    } else {
        Seq::empty()
    }
}

/// Position of the transition labels.
pub open spec fn trans_pos(d: Seq<u8>, a: int) -> int {
    if has_levels(d, a) { lref_pos(d, a) + 2 } else { lref_pos(d, a) }
}

/// Position of the target deltas.
pub open spec fn targets_pos(d: Seq<u8>, a: int) -> int {
    trans_pos(d, a) + count(d, a)
}

/// First position after the node.
pub open spec fn node_end(d: Seq<u8>, a: int) -> int {
    targets_pos(d, a) + stride(d, a) * count(d, a)
}

/// Transition labels of the node.
pub open spec fn labels(d: Seq<u8>, a: int) -> Seq<u8> {
    d.subrange(trans_pos(d, a), targets_pos(d, a))
}

/// Address reached through the `j`-th transition of the node at `a`.
pub open spec fn target(d: Seq<u8>, a: int, j: int) -> int {
    let p = targets_pos(d, a) + stride(d, a) * j;
    a + delta_value(d.subrange(p, p + stride(d, a)))
}

/// The bytes at `a` form a node whose fields all lie within the blob.
pub open spec fn node_ok(d: Seq<u8>, a: int) -> bool {
    &&& 0 <= a < d.len()
    &&& count_low(d, a) == 31 ==> a + 1 < d.len()
    &&& has_levels(d, a) ==> lref_pos(d, a) + 2 <= d.len() && level_offset(d, a) + level_len(d, a)
        <= d.len()
    &&& count(d, a) > 0 ==> 1 <= stride(d, a) <= 3
    &&& node_end(d, a) <= d.len()
}

/// Every address of `nodes` is a node whose targets are in `nodes` again.
pub open spec fn closed(d: Seq<u8>, nodes: Set<int>) -> bool {
    forall|a: int|
        #[trigger] nodes.contains(a) ==> node_ok(d, a) && forall|j: int|
            0 <= j < count(d, a) ==> nodes.contains(#[trigger] target(d, a, j))
}

/// The node at `a` and every node reachable from it are well formed.
pub open spec fn sound_at(d: Seq<u8>, a: int) -> bool {
    exists|nodes: Set<int>| #[trigger] closed(d, nodes) && nodes.contains(a)
}

/// Address stored in the first four bytes of the blob.
pub open spec fn root_addr(d: Seq<u8>) -> int {
    ((d[0] as int * 256 + d[1] as int) * 256 + d[2] as int) * 256 + d[3] as int
}

/// The blob starts with a root address from which only well-formed nodes are
/// reachable.
pub open spec fn blob_ok(d: Seq<u8>) -> bool {
    d.len() >= 4 && sound_at(d, root_addr(d))
}

/// Index of the first occurrence of `b` in `s` at or after `i`.
pub open spec fn first_index(s: Seq<u8>, b: u8, i: int) -> Option<int>
    decreases s.len() - i,
{
    if i < 0 || i >= s.len() {
        None
    } else if s[i] == b {
        Some(i)
    } else {
        first_index(s, b, i + 1)
    }
}

/// Address reached from the node at `a` by the transition labelled `b`.
pub open spec fn step(d: Seq<u8>, a: int, b: u8) -> Option<int> {
    match first_index(labels(d, a), b, 0) {
        Some(j) => Some(target(d, a, j)),
        None => None,
    }
}

/// Cumulative distance of the `k`-th packed level entry.
pub open spec fn cum_dist(packed: Seq<u8>, k: int) -> int
    decreases k + 1,
{
    if k < 0 {
        0
    } else {
        cum_dist(packed, k - 1) + packed[k] as int / 10
    }
}

/// A state in a trie traversal: a view over the node at `addr`.
#[derive(Copy, Clone)]
pub struct State<'a> {
    data: &'a [u8],
    addr: usize,
    stride: usize,
    levels: &'a [u8],
    trans: &'a [u8],
    targets: &'a [u8],
}

impl<'a> State<'a> {
    /// The blob the state reads.
    pub closed spec fn blob(self) -> Seq<u8> {
        self.data@
    }

    /// Address of the node.
    pub closed spec fn address(self) -> int {
        self.addr as int
    }

    /// The fields are the decoded parts of a sound node.
    pub closed spec fn wf(self) -> bool {
        let d = self.data@;
        let a = self.addr as int;
        &&& sound_at(d, a)
        &&& self.stride as int == stride(d, a)
        &&& self.levels@ == packed_levels(d, a)
        &&& self.trans@ == labels(d, a)
        &&& self.targets@ == d.subrange(targets_pos(d, a), node_end(d, a))
    }

    /// Create a new state at the root node.
    pub fn root(data: &'a [u8]) -> (r: Self)
        requires
            blob_ok(data@),
        ensures
            r.wf(),
            r.blob() == data@,
            r.address() == root_addr(data@),
    {
        let addr = ((data[0] as usize * 256 + data[1] as usize) * 256 + data[2] as usize) * 256
            + data[3] as usize;
        Self::at(data, addr)
    }

    /// Create a new state at the given node address.
    pub fn at(data: &'a [u8], addr: usize) -> (r: Self)
        requires
            sound_at(data@, addr as int),
        ensures
            r.wf(),
            r.blob() == data@,
            r.address() == addr,
    {
        proof {
            let nodes = choose|nodes: Set<int>| #[trigger] closed(data@, nodes) && nodes.contains(addr as int);
            assert(nodes.contains(addr as int));
        }
        let h = data[addr];
        let has_levels = h >= 128;
        let stride = ((h / 32) % 4) as usize;
        let mut count = (h % 32) as usize;
        let mut pos = addr + 1;
        if count == 31 {
            count = data[pos] as usize;
            pos += 1;
        }
        let mut levels: &[u8] = &[];
        if has_levels {
            let offset = data[pos] as usize * 16 + data[pos + 1] as usize / 16;
            let len = (data[pos + 1] % 16) as usize;
            levels = &data[offset..offset + len];
            pos += 2;
        }
        let trans = &data[pos..pos + count];
        pos += count;
        let targets = &data[pos..pos + stride * count];
        assert(stride as int == crate::state::stride(data@, addr as int));
        assert(count as int == crate::state::count(data@, addr as int));
        assert(levels@ == packed_levels(data@, addr as int));
        assert(trans@ == labels(data@, addr as int));
        State { data, addr, stride, levels, trans, targets }
    }

    /// Return the state reached by following the transition labelled `b`.
    /// Returns `None` if there is no such state.
    pub fn transition(self, b: u8) -> (r: Option<Self>)
        requires
            self.wf(),
        ensures
            match step(self.blob(), self.address(), b) {
                Some(t) => r is Some && r->0.wf() && r->0.blob() == self.blob() && r->0.address()
                    == t,
                None => r is None,
            },
    {
        let ghost d = self.data@;
        let ghost a = self.addr as int;
        let mut idx: usize = 0;
        while idx < self.trans.len() && self.trans[idx] != b
            invariant
                self.wf(),
                d == self.data@,
                a == self.addr,
                0 <= idx <= self.trans@.len(),
                first_index(labels(d, a), b, 0) == first_index(labels(d, a), b, idx as int),
            decreases self.trans@.len() - idx,
        {
            idx += 1;
        }
        if idx == self.trans.len() {
            return None;
        }
        proof {
            let nodes = choose|nodes: Set<int>| #[trigger] closed(d, nodes) && nodes.contains(a);
            assert(nodes.contains(target(d, a, idx as int)));
            assert(closed(d, nodes));
            let c = crate::state::count(d, a);
            let st = self.stride as int;
            assert(self.trans@.len() == c);
            assert(self.targets@.len() == st * c);
            assert(st * idx + st <= st * c) by (nonlinear_arith)
                requires
                    idx < c,
                    st >= 0,
            ;
        }
        let _tlen = self.targets.len();
        let _dlen = self.data.len();
        let offset = self.stride * idx;
        let slot = &self.targets[offset..offset + self.stride];
        let delta = from_be_bytes(slot);
        proof {
            let p = targets_pos(d, a) + self.stride * idx;
            assert(slot@ =~= d.subrange(p, p + self.stride));
            let nodes = choose|nodes: Set<int>| #[trigger] closed(d, nodes) && nodes.contains(a);
            assert(nodes.contains(target(d, a, idx as int)));
            assert(node_ok(d, target(d, a, idx as int)));
            assert(first_index(labels(d, a), b, idx as int) == Some(idx as int));
            assert(target(d, a, idx as int) == a + delta);
        }
        let next = if delta >= 0 {
            self.addr + delta as usize
        } else {
            self.addr - (-delta) as usize
        };
        Some(Self::at(self.data, next))
    }

    /// Returns the levels contained in the state: pairs of cumulative
    /// distance and level.
    pub fn levels(self) -> (r: Vec<(usize, u8)>)
        requires
            self.wf(),
        ensures
            r@.len() == packed_levels(self.blob(), self.address()).len(),
            forall|k: int|
                0 <= k < r@.len() ==> r@[k].0 as int == cum_dist(
                    packed_levels(self.blob(), self.address()),
                    k,
                ) && r@[k].1 == packed_levels(self.blob(), self.address())[k] % 10,
    {
        let mut out: Vec<(usize, u8)> = Vec::new();
        let mut offset: usize = 0;
        let mut k: usize = 0;
        while k < self.levels.len()
            invariant
                self.wf(),
                self.levels@.len() <= 15,
                0 <= k <= self.levels@.len(),
                offset as int == cum_dist(self.levels@, k - 1),
                offset <= 25 * k,
                out@.len() == k,
                forall|i: int|
                    0 <= i < k ==> out@[i].0 as int == cum_dist(self.levels@, i) && out@[i].1
                        == self.levels@[i] % 10,
            decreases self.levels@.len() - k,
        {
            let packed = self.levels[k];
            offset += (packed / 10) as usize;
            out.push((offset, packed % 10));
            assert(cum_dist(self.levels@, k as int) == cum_dist(self.levels@, k - 1)
                + self.levels@[k as int] / 10);
            k += 1;
        }
        out
    }
}

} // verus!
