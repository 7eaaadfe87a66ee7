//! Building the pattern trie.
use vstd::prelude::*;
use crate::state::first_index;
use vstd::string::StringSliceAdditionalSpecFns;

verus! {

/// A node in the trie.
#[derive(Debug, Default, Clone, PartialEq, Eq, Hash)]
pub struct Node {
    pub trans: Vec<u8>,
    pub targets: Vec<usize>,
    pub levels: Option<(usize, usize)>,
}

/// Builds a trie from patterns.
pub struct TrieBuilder {
    pub root: usize,
    pub nodes: Vec<Node>,
    pub levels: Vec<(usize, u8)>,
}

/// Every node has one target per label, and every target is a node.
pub open spec fn edges_ok(nodes: Seq<Node>) -> bool {
    forall|i: int|
        #![trigger nodes[i]]
        0 <= i < nodes.len() ==> nodes[i].trans@.len() == nodes[i].targets@.len() && forall|j: int|
            0 <= j < nodes[i].targets@.len() ==> nodes[i].targets@[j] < nodes.len()
}

/// Every level reference of a node lies within the level table.
pub open spec fn refs_ok(nodes: Seq<Node>, levels: Seq<(usize, u8)>) -> bool {
    forall|i: int|
        #![trigger nodes[i]]
        0 <= i < nodes.len() ==> match nodes[i].levels {
            Some(r) => r.0 + r.1 <= levels.len(),
            None => true,
        }
}

/// Every target lies after its node: the shape of a trie under construction.
pub open spec fn forward(nodes: Seq<Node>) -> bool {
    forall|i: int, j: int|
        0 <= i < nodes.len() && 0 <= j < nodes[i].targets@.len() ==> nodes[i].targets@[j] > i
}

/// Every target lies before its node: the shape of a compressed trie.
pub open spec fn backward(nodes: Seq<Node>) -> bool {
    forall|i: int, j: int|
        0 <= i < nodes.len() && 0 <= j < nodes[i].targets@.len() ==> nodes[i].targets@[j] < i
}

/// A node as plain values: labels, targets, level reference.
pub type Shape = (Seq<u8>, Seq<usize>, Option<(usize, usize)>);

pub open spec fn shape(n: Node) -> Shape {
    (n.trans@, n.targets@, n.levels)
}

/// The shapes of all nodes.
pub open spec fn shapes(nodes: Seq<Node>) -> Seq<Shape> {
    nodes.map_values(|n: Node| shape(n))
}

/// Node reached from `s` by the transition labelled `b`, over shapes.
pub open spec fn step_shape(v: Seq<Shape>, s: int, b: u8) -> Option<int> {
    match first_index(v[s].0, b, 0) {
        Some(j) => Some(v[s].1[j] as int),
        None => None,
    }
}

/// A new transition from `s` labelled `b` to a new, empty last node.
pub open spec fn grow(v: Seq<Shape>, s: int, b: u8) -> Seq<Shape> {
    v.update(s, (v[s].0.push(b), v[s].1.push(v.len() as usize), v[s].2)).push(
        (Seq::empty(), Seq::empty(), None),
    )
}

/// The nodes after following `path` from `s`, creating each missing
/// transition, and the node where the path ends.
pub open spec fn descend(v: Seq<Shape>, s: int, path: Seq<u8>) -> (Seq<Shape>, int)
    decreases path.len(),
{
    if path.len() == 0 {
        (v, s)
    } else {
        match step_shape(v, s, path[0]) {
            Some(t) => descend(v, t, path.drop_first()),
            None => descend(grow(v, s, path[0]), v.len() as int, path.drop_first()),
        }
    }
}

/// The nodes after inserting pattern `p` into a trie with level table `table`.
pub open spec fn inserted_shapes(v: Seq<Shape>, table: Seq<(usize, u8)>, p: Seq<u8>) -> Seq<Shape> {
    let (w, t) = descend(v, 0, letters(p));
    let vec = level_vector(p);
    w.update(t, (w[t].0, w[t].1, Some((intern_pos(table, vec) as usize, vec.len() as usize))))
}

/// The letters of a prefix of a pattern begin the letters of a longer prefix.
proof fn lemma_letters_prefix(p: Seq<u8>, i: int, j: int)
    requires
        0 <= i <= j <= p.len(),
    ensures
        letters(p.take(i)).len() <= letters(p.take(j)).len(),
        letters(p.take(j)).take(letters(p.take(i)).len() as int) == letters(p.take(i)),
    decreases j - i,
{
    if i < j {
        lemma_letters_prefix(p, i, j - 1);
        assert(p.take(j).drop_last() =~= p.take(j - 1));
        let a = letters(p.take(i));
        let b = letters(p.take(j - 1));
        let c = letters(p.take(j));
        assert(c.take(a.len() as int) =~= b.take(a.len() as int));
    } else {
        let a = letters(p.take(i));
        assert(a.take(a.len() as int) =~= a);
    }
}

/// Node reached from `s` by the transition labelled `b`.
pub open spec fn step_node(nodes: Seq<Node>, s: int, b: u8) -> Option<int> {
    match first_index(nodes[s].trans@, b, 0) {
        Some(j) => Some(nodes[s].targets@[j] as int),
        None => None,
    }
}

/// Node reached from `s` along the labels of `path`.
pub open spec fn walk(nodes: Seq<Node>, s: int, path: Seq<u8>) -> Option<int>
    decreases path.len(),
{
    if path.len() == 0 {
        Some(s)
    } else {
        match walk(nodes, s, path.drop_last()) {
            Some(x) => step_node(nodes, x, path.last()),
            None => None,
        }
    }
}

pub open spec fn is_digit(b: u8) -> bool {
    48 <= b <= 57
}

/// The letter bytes of a pattern.
pub open spec fn letters(p: Seq<u8>) -> Seq<u8>
    decreases p.len(),
{
    if p.len() == 0 {
        Seq::empty()
    } else if is_digit(p.last()) {
        letters(p.drop_last())
    } else {
        letters(p.drop_last()).push(p.last())
    }
}

/// The level vector of a pattern together with the number of letters after
/// its last digit.
pub open spec fn vector_and_dist(p: Seq<u8>) -> (Seq<(usize, u8)>, nat)
    decreases p.len(),
{
    if p.len() == 0 {
        (Seq::empty(), 0)
    } else {
        let (v, d) = vector_and_dist(p.drop_last());
        if is_digit(p.last()) {
            (v.push((d as usize, (p.last() - 48) as u8)), 0)
        } else {
            (v, d + 1)
        }
    }
}

/// The level vector of a pattern: (letters since the previous digit, digit).
pub open spec fn level_vector(p: Seq<u8>) -> Seq<(usize, u8)> {
    vector_and_dist(p).0
}

/// `v` stands in `table` at position `p`.
pub open spec fn occurs_at(table: Seq<(usize, u8)>, v: Seq<(usize, u8)>, p: int) -> bool {
    0 <= p && p + v.len() <= table.len() && table.subrange(p, p + v.len()) == v
}

/// First position at or after `p` where `v` stands in `table`, or the
/// table's length.
pub open spec fn find_from(table: Seq<(usize, u8)>, v: Seq<(usize, u8)>, p: int) -> int
    decreases table.len() - p,
{
    if p >= table.len() {
        table.len() as int
    } else if occurs_at(table, v, p) {
        p
    } else {
        find_from(table, v, p + 1)
    }
}

/// Position of `v` in the level table after interning it.
pub open spec fn intern_pos(table: Seq<(usize, u8)>, v: Seq<(usize, u8)>) -> int {
    find_from(table, v, 0)
}

/// The level table after interning `v`.
pub open spec fn interned(table: Seq<(usize, u8)>, v: Seq<(usize, u8)>) -> Seq<(usize, u8)> {
    if intern_pos(table, v) == table.len() {
        table + v
    } else {
        table
    }
}

/// Node `k` of `new` stands for node `i` of `old`: same labels, same level
/// reference, and targets that stand for each other in turn.
pub open spec fn equiv(old: Seq<Node>, i: int, new: Seq<Node>, k: int) -> bool
    decreases old.len() - i,
{
    &&& 0 <= i < old.len()
    &&& 0 <= k < new.len()
    &&& old[i].trans@ == new[k].trans@
    &&& old[i].levels == new[k].levels
    &&& old[i].targets@.len() == new[k].targets@.len()
    &&& forall|j: int|
        0 <= j < old[i].targets@.len() ==> i < old[i].targets@[j] < old.len() && equiv(
            old,
            old[i].targets@[j] as int,
            new,
            new[k].targets@[j] as int,
        )
}

/// Two nodes with equal labels, targets and level reference.
pub open spec fn same_shape(a: Node, b: Node) -> bool {
    a.trans@ == b.trans@ && a.targets@ == b.targets@ && a.levels == b.levels
}

/// No two nodes have the same shape.
pub open spec fn distinct(nodes: Seq<Node>) -> bool {
    forall|a: int, b: int|
        0 <= a < b < nodes.len() ==> !same_shape(#[trigger] nodes[a], #[trigger] nodes[b])
}

/// First index at or after `m` of a node of shape `x` in `v`.
pub open spec fn find_shape(v: Seq<Shape>, x: Shape, m: int) -> Option<int>
    decreases v.len() - m,
{
    if m < 0 || m >= v.len() {
        None
    } else if v[m] == x {
        Some(m)
    } else {
        find_shape(v, x, m + 1)
    }
}

/// Compressing node `i` of a forward trie `t` into the compressed nodes `v`:
/// the compressed nodes afterwards, and the representative of `i`.
pub open spec fn compress_shape(t: Seq<Shape>, i: int, v: Seq<Shape>) -> (Seq<Shape>, int)
    decreases t.len() - i, t[i].1.len() + 1,
{
    if 0 <= i < t.len() {
        let (w, kids) = compress_kids(t, i, 0, v, Seq::empty());
        let x = (t[i].0, kids, t[i].2);
        match find_shape(w, x, 0) {
            Some(m) => (w, m),
            None => (w.push(x), w.len() as int),
        }
    } else {
        (v, 0)
    }
}

/// Compressing the targets `j..` of node `i`, after those before `j` have
/// become `acc`.
pub open spec fn compress_kids(
    t: Seq<Shape>,
    i: int,
    j: int,
    v: Seq<Shape>,
    acc: Seq<usize>,
) -> (Seq<Shape>, Seq<usize>)
    decreases t.len() - i, t[i].1.len() - j,
{
    if 0 <= i < t.len() && 0 <= j < t[i].1.len() && i < t[i].1[j] < t.len() {
        let (w, r) = compress_shape(t, t[i].1[j] as int, v);
        compress_kids(t, i, j + 1, w, acc.push(r as usize))
    } else {
        (v, acc)
    }
}

/// Targets of `new` are earlier nodes of `new`.
pub open spec fn backward_ok(new: Seq<Node>) -> bool {
    &&& edges_ok(new)
    &&& backward(new)
}

/// Suffix compression keeps the language of the trie: along every path of
/// labels, the compressed trie reaches a node exactly when the uncompressed one
/// does, and the two nodes carry the same level reference, so every word
/// receives the same levels before and after compression.
#[verifier::rlimit(60)]
pub proof fn lemma_compress_language(
    old: Seq<Node>,
    r: int,
    new: Seq<Node>,
    r2: int,
    path: Seq<u8>,
)
    requires
        edges_ok(old),
        equiv(old, r, new, r2),
    ensures
        walk(old, r, path) is Some <==> walk(new, r2, path) is Some,
        walk(old, r, path) is Some ==> equiv(
            old,
            walk(old, r, path)->0,
            new,
            walk(new, r2, path)->0,
        ) && old[walk(old, r, path)->0].levels == new[walk(new, r2, path)->0].levels,
    decreases path.len(),
{
    if path.len() > 0 {
        lemma_compress_language(old, r, new, r2, path.drop_last());
        match walk(old, r, path.drop_last()) {
            Some(x) => {
                let y = walk(new, r2, path.drop_last())->0;
                let c = path.last();
                lemma_first_index_push(old[x].trans@, 0, c, 0);
                assert(old[x].trans@ == new[y].trans@);
                if first_index(old[x].trans@, c, 0) is Some {
                    let j = first_index(old[x].trans@, c, 0)->0;
                    assert(j < old[x].targets@.len());
                    assert(equiv(old, old[x].targets@[j] as int, new, new[y].targets@[j] as int));
                }
            },
            None => {},
        }
    }
}

/// Growing `new` keeps what its nodes stand for.
proof fn lemma_equiv_extend(old: Seq<Node>, i: int, new: Seq<Node>, new2: Seq<Node>, k: int)
    requires
        equiv(old, i, new, k),
        new.len() <= new2.len(),
        forall|m: int| 0 <= m < new.len() ==> new2[m] == new[m],
    ensures
        equiv(old, i, new2, k),
    decreases old.len() - i,
{
    assert forall|j: int| 0 <= j < old[i].targets@.len() implies i < old[i].targets@[j] < old.len() && equiv(
        old,
        old[i].targets@[j] as int,
        new2,
        new2[k].targets@[j] as int,
    ) by {
        lemma_equiv_extend(old, old[i].targets@[j] as int, new, new2, new[k].targets@[j] as int);
    }
}

/// Whether two nodes have equal labels, targets and level reference.
fn same_node(a: &Node, b: &Node) -> (r: bool)
    ensures
        r == same_shape(*a, *b),
{
    if a.trans.len() != b.trans.len() || a.targets.len() != b.targets.len() {
        return false;
    }
    match (a.levels, b.levels) {
        (Some(x), Some(y)) => {
            if x.0 != y.0 || x.1 != y.1 {
                return false;
            }
        },
        (None, None) => {},
        _ => {
            return false;
        },
    }
    let mut j: usize = 0;
    while j < a.trans.len()
        invariant
            a.trans@.len() == b.trans@.len(),
            0 <= j <= a.trans@.len(),
            forall|m: int| 0 <= m < j ==> a.trans@[m] == b.trans@[m],
        decreases a.trans@.len() - j,
    {
        if a.trans[j] != b.trans[j] {
            return false;
        }
        j += 1;
    }
    assert(a.trans@ =~= b.trans@);
    let mut j: usize = 0;
    while j < a.targets.len()
        invariant
            a.targets@.len() == b.targets@.len(),
            0 <= j <= a.targets@.len(),
            forall|m: int| 0 <= m < j ==> a.targets@[m] == b.targets@[m],
        decreases a.targets@.len() - j,
    {
        if a.targets[j] != b.targets[j] {
            return false;
        }
        j += 1;
    }
    assert(a.targets@ =~= b.targets@);
    true
}

/// A copy of a node.
fn copy_node(n: &Node) -> (r: Node)
    ensures
        r.trans@ == n.trans@,
        r.targets@ == n.targets@,
        r.levels == n.levels,
{
    let trans = n.trans.clone();
    let targets = n.targets.clone();
    assert(trans@ =~= n.trans@);
    assert(targets@ =~= n.targets@);
    Node { trans, targets, levels: n.levels }
}

proof fn lemma_first_index_push(s: Seq<u8>, b: u8, c: u8, i: int)
    requires
        0 <= i,
    ensures
        first_index(s, c, i) is Some ==> first_index(s.push(b), c, i) == first_index(s, c, i),
        first_index(s, c, i) is Some ==> i <= first_index(s, c, i)->0 < s.len(),
        first_index(s, c, i) is None && c == b && i <= s.len() ==> first_index(s.push(b), c, i)
            == Some(s.len() as int),
    decreases s.len() + 1 - i,
{
    if i <= s.len() {
        lemma_first_index_push(s, b, c, i + 1);
    }
}

/// Walks that succeed in `old` reach the same node in `new`, provided every
/// transition of `old` is kept in `new`.
pub proof fn lemma_walk_kept(old: Seq<Node>, new: Seq<Node>, s: int, path: Seq<u8>)
    requires
        edges_ok(old),
        0 <= s < old.len(),
        forall|y: int, c: u8|
            0 <= y < old.len() && (#[trigger] step_node(old, y, c)) is Some ==> step_node(new, y, c)
                == step_node(old, y, c),
    ensures
        walk(old, s, path) is Some ==> walk(new, s, path) == walk(old, s, path) && 0 <= walk(
            old,
            s,
            path,
        )->0 < old.len(),
    decreases path.len(),
{
    if path.len() > 0 {
        lemma_walk_kept(old, new, s, path.drop_last());
        match walk(old, s, path.drop_last()) {
            Some(x) => {
                let c = path.last();
                lemma_first_index_push(old[x].trans@, 0, c, 0);
                if step_node(old, x, c) is Some {
                    let j = first_index(old[x].trans@, c, 0)->0;
                    assert(old[x].targets@[j] < old.len());
                    assert(step_node(new, x, c) == step_node(old, x, c));
                }
            },
            None => {},
        }
    }
}

/// Whether `v` stands in `table` at position `p`.
fn occurs(table: &Vec<(usize, u8)>, v: &Vec<(usize, u8)>, p: usize) -> (r: bool)
    requires
        p <= table@.len(),
    ensures
        r == occurs_at(table@, v@, p as int),
{
    if v.len() > table.len() - p {
        return false;
    }
    let tlen = table.len();
    let mut k: usize = 0;
    while k < v.len()
        invariant
            tlen == table@.len(),
            p + v@.len() <= table@.len(),
            0 <= k <= v@.len(),
            forall|m: int| 0 <= m < k ==> table@[p + m] == v@[m],
        decreases v@.len() - k,
    {
        if table[p + k].0 != v[k].0 || table[p + k].1 != v[k].1 {
            assert(table@.subrange(p as int, p + v@.len())[k as int] != v@[k as int]);
            return false;
        }
        k += 1;
    }
    assert(table@.subrange(p as int, p + v@.len()) =~= v@);
    true
}

proof fn lemma_find_from(table: Seq<(usize, u8)>, v: Seq<(usize, u8)>, p: int)
    requires
        0 <= p <= table.len(),
    ensures
        p <= find_from(table, v, p) <= table.len(),
        find_from(table, v, p) < table.len() ==> occurs_at(table, v, find_from(table, v, p)),
    decreases table.len() - p,
{
    if p < table.len() && !occurs_at(table, v, p) {
        lemma_find_from(table, v, p + 1);
    }
}

/// Intern a level vector into the level table: reuse its first occurrence,
/// or append it.
fn intern(table: &mut Vec<(usize, u8)>, v: &Vec<(usize, u8)>) -> (r: usize)
    ensures
        final(table)@ == interned(old(table)@, v@),
        r as int == intern_pos(old(table)@, v@),
        old(table)@.len() <= final(table)@.len(),
        r + v@.len() <= final(table)@.len(),
{
    proof {
        lemma_find_from(table@, v@, 0);
    }
    let mut offset: usize = 0;
    while offset < table.len() && !occurs(table, v, offset)
        invariant
            0 <= offset <= table@.len(),
            intern_pos(table@, v@) == find_from(table@, v@, offset as int),
        decreases table@.len() - offset,
    {
        offset += 1;
    }
    if offset == table.len() {
        let mut k: usize = 0;
        let ghost table0 = table@;
        while k < v.len()
            invariant
                table@ == table0 + v@.take(k as int),
                0 <= k <= v@.len(),
            decreases v@.len() - k,
        {
            table.push(v[k]);
            proof {
                assert(v@.take(k + 1) =~= v@.take(k as int).push(v@[k as int]));
            }
            k += 1;
        }
        assert(v@.take(k as int) =~= v@);
    }
    offset
}

impl TrieBuilder {
    /// Indices are in bounds.
    pub open spec fn wf(&self) -> bool {
        &&& self.nodes@.len() >= 1
        &&& self.root < self.nodes@.len()
        &&& edges_ok(self.nodes@)
        &&& refs_ok(self.nodes@, self.levels@)
    }

    /// The trie is under construction: rooted at the first node, with every
    /// target after its node.
    pub open spec fn building(&self) -> bool {
        &&& self.wf()
        &&& self.root == 0
        &&& forward(self.nodes@)
    }

    /// Create a new trie with just the root node.
    pub fn new() -> (r: Self)
        ensures
            r.building(),
            r.nodes@.len() == 1,
            r.nodes@[0].trans@.len() == 0,
            r.nodes@[0].levels is None,
            r.levels@.len() == 0,
    {
        let mut nodes: Vec<Node> = Vec::new();
        nodes.push(Node { trans: Vec::new(), targets: Vec::new(), levels: None });
        TrieBuilder { root: 0, nodes, levels: Vec::new() }
    }

    /// Perform suffix compression on the trie: structurally equal subtries
    /// are merged, and every node of the result stands for the node of the
    /// old trie that it came from.
    pub fn compress(&mut self)
        requires
            old(self).building(),
        ensures
            final(self).wf(),
            backward(final(self).nodes@),
            distinct(final(self).nodes@),
            final(self).levels@ == old(self).levels@,
            (shapes(final(self).nodes@), final(self).root as int) == compress_shape(
                shapes(old(self).nodes@),
                old(self).root as int,
                Seq::empty(),
            ),
            equiv(old(self).nodes@, old(self).root as int, final(self).nodes@, final(self).root as int),
    {
        let mut new: Vec<Node> = Vec::new();
        assert(shapes(new@) =~= Seq::<Shape>::empty());
        let root = self.compress_node(self.root, &mut new);
        self.root = root;
        self.nodes = new;
    }

    /// Recursively compress a node.
    #[verifier::rlimit(60)]
    fn compress_node(&self, node: usize, new: &mut Vec<Node>) -> (r: usize)
        requires
            self.building(),
            node < self.nodes@.len(),
            backward_ok(old(new)@),
            refs_ok(old(new)@, self.levels@),
            distinct(old(new)@),
        ensures
            backward_ok(final(new)@),
            distinct(final(new)@),
            refs_ok(final(new)@, self.levels@),
            old(new)@.len() <= final(new)@.len(),
            forall|m: int| 0 <= m < old(new)@.len() ==> final(new)@[m] == old(new)@[m],
            r < final(new)@.len(),
            equiv(self.nodes@, node as int, final(new)@, r as int),
            (shapes(final(new)@), r as int) == compress_shape(
                shapes(self.nodes@),
                node as int,
                shapes(old(new)@),
            ),
        decreases self.nodes@.len() - node,
    {
        let ghost new0 = new@;
        let ghost t = shapes(self.nodes@);
        let n = &self.nodes[node];
        let mut targets: Vec<usize> = Vec::new();
        let mut j: usize = 0;
        while j < n.targets.len()
            invariant
                self.building(),
                node < self.nodes@.len(),
                n == self.nodes@[node as int],
                backward_ok(new@),
                refs_ok(new@, self.levels@),
                distinct(new@),
                new0.len() <= new@.len(),
                forall|m: int| 0 <= m < new0.len() ==> new@[m] == new0[m],
                t == shapes(self.nodes@),
                compress_kids(t, node as int, 0, shapes(new0), Seq::empty()) == compress_kids(
                    t,
                    node as int,
                    j as int,
                    shapes(new@),
                    targets@,
                ),
                0 <= j <= n.targets@.len(),
                targets@.len() == j,
                forall|m: int|
                    0 <= m < j ==> targets@[m] < new@.len() && n.targets@[m] > node && equiv(
                        self.nodes@,
                        n.targets@[m] as int,
                        new@,
                        targets@[m] as int,
                    ),
            decreases n.targets@.len() - j,
        {
            let ghost before = new@;
            let rep = self.compress_node(n.targets[j], new);
            proof {
                assert(compress_kids(t, node as int, j as int, shapes(before), targets@)
                    == compress_kids(t, node as int, j + 1, shapes(new@), targets@.push(rep)));
                assert forall|m: int| 0 <= m < j implies equiv(
                    self.nodes@,
                    n.targets@[m] as int,
                    new@,
                    targets@[m] as int,
                ) by {
                    lemma_equiv_extend(
                        self.nodes@,
                        n.targets@[m] as int,
                        before,
                        new@,
                        targets@[m] as int,
                    );
                }
            }
            targets.push(rep);
            j += 1;
        }
        let ghost kids = targets@;
        proof {
            assert(compress_kids(t, node as int, j as int, shapes(new@), kids) == (shapes(new@), kids));
        }
        let trans = n.trans.clone();
        assert(trans@ =~= n.trans@);
        let x = Node { trans, targets, levels: n.levels };
        let mut idx: usize = 0;
        while idx < new.len() && !same_node(&new[idx], &x)
            invariant
                0 <= idx <= new@.len(),
                forall|m: int| 0 <= m < idx ==> !same_shape(#[trigger] new@[m], x),
                find_shape(shapes(new@), shape(x), 0) == find_shape(
                    shapes(new@),
                    shape(x),
                    idx as int,
                ),
            decreases new@.len() - idx,
        {
            assert(shapes(new@)[idx as int] == shape(new@[idx as int]));
            idx += 1;
        }
        assert(shape(x) == (t[node as int].0, kids, t[node as int].2));
        if idx < new.len() {
            assert(shapes(new@)[idx as int] == shape(new@[idx as int]));
            assert(equiv(self.nodes@, node as int, new@, idx as int));
            return idx;
        }
        let ghost before = new@;
        new.push(x);
        proof {
            assert(shapes(new@) =~= shapes(before).push(shape(x)));
            assert forall|m: int| 0 <= m < x.targets@.len() implies equiv(
                self.nodes@,
                n.targets@[m] as int,
                new@,
                x.targets@[m] as int,
            ) by {
                lemma_equiv_extend(self.nodes@, n.targets@[m] as int, before, new@, x.targets@[m] as int);
            }
            assert(new@[before.len() as int] == x);
        }
        new.len() - 1
    }

    /// Insert a pattern like `.a1bc2d` into the trie.
    ///
    /// The letters of the pattern lead from the root to a node whose level
    /// reference points at the pattern's level vector, interned into the
    /// level table. Walks that existed before are kept.
    #[verifier::rlimit(60)]
    pub fn insert(&mut self, pattern: &str)
        requires
            old(self).building(),
            old(self).nodes@.len() + pattern.spec_bytes().len() < usize::MAX,
        ensures
            final(self).building(),
            final(self).levels@ == interned(
                old(self).levels@,
                level_vector(pattern.spec_bytes()),
            ),
            match walk(final(self).nodes@, 0, letters(pattern.spec_bytes())) {
                Some(t) => final(self).nodes@[t].levels == Some(
                    (
                        intern_pos(old(self).levels@, level_vector(pattern.spec_bytes())) as usize,
                        level_vector(pattern.spec_bytes()).len() as usize,
                    ),
                ),
                None => false,
            },
            forall|path: Seq<u8>|
                #[trigger] walk(old(self).nodes@, 0, path) is Some ==> walk(final(self).nodes@, 0, path)
                    == walk(old(self).nodes@, 0, path),
            forall|i: int|
                0 <= i < old(self).nodes@.len() && walk(
                    final(self).nodes@,
                    0,
                    letters(pattern.spec_bytes()),
                ) != Some(i) ==> #[trigger] final(self).nodes@[i].levels == old(self).nodes@[i].levels,
            shapes(final(self).nodes@) == inserted_shapes(
                shapes(old(self).nodes@),
                old(self).levels@,
                pattern.spec_bytes(),
            ),
    {
        let bytes = pattern.as_bytes();
        let ghost p = bytes@;
        let ghost nodes0 = self.nodes@;
        let mut state: usize = 0;
        let mut dist: usize = 0;
        let mut vector: Vec<(usize, u8)> = Vec::new();
        proof {
            assert(p.take(0) =~= Seq::<u8>::empty());
            assert(letters(p).skip(0) =~= letters(p));
            lemma_letters_prefix(p, 0, p.len() as int);
            assert(p.take(p.len() as int) =~= p);
        }
        let mut i: usize = 0;
        while i < bytes.len()
            invariant
                p == bytes@,
                self.building(),
                self.levels@ == old(self).levels@,
                nodes0 == old(self).nodes@,
                nodes0.len() <= self.nodes@.len() <= nodes0.len() + i,
                nodes0.len() + p.len() < usize::MAX,
                0 <= i <= p.len(),
                state < self.nodes@.len(),
                walk(self.nodes@, 0, letters(p.take(i as int))) == Some(state as int),
                (vector@, dist as nat) == vector_and_dist(p.take(i as int)),
                dist <= i,
                letters(p.take(i as int)).len() <= letters(p).len(),
                descend(shapes(nodes0), 0, letters(p)) == descend(
                    shapes(self.nodes@),
                    state as int,
                    letters(p).skip(letters(p.take(i as int)).len() as int),
                ),
                forall|path: Seq<u8>|
                    #[trigger] walk(nodes0, 0, path) is Some ==> walk(self.nodes@, 0, path) == walk(
                        nodes0,
                        0,
                        path,
                    ),
                forall|k: int|
                    0 <= k < nodes0.len() ==> #[trigger] self.nodes@[k].levels == nodes0[k].levels,
                forall|k: int| nodes0.len() <= k < self.nodes@.len() ==> #[trigger] self.nodes@[k].levels is None,
            decreases p.len() - i,
        {
            let b = bytes[i];
            let ghost k = letters(p.take(i as int)).len() as int;
            let ghost lp = letters(p);
            proof {
                assert(p.take(i + 1).drop_last() =~= p.take(i as int));
                assert(p.take(i + 1).last() == b);
                lemma_letters_prefix(p, i + 1, p.len() as int);
                assert(p.take(p.len() as int) =~= p);
            }
            if b >= 48 && b <= 57 {
                vector.push((dist, b - 48));
                dist = 0;
                assert(letters(p.take(i + 1)) == letters(p.take(i as int)));
            } else {
                assert(letters(p.take(i + 1)) == letters(p.take(i as int)).push(b));
                assert(letters(p.take(i as int)).push(b).drop_last() =~= letters(p.take(i as int)));
                let len = self.nodes.len();
                let ghost before = self.nodes@;
                let ghost before_state = state as int;
                proof {
                    assert(lp[k] == letters(p.take(i + 1))[k]);
                    assert(lp.skip(k)[0] == b);
                    assert(lp.skip(k).drop_first() =~= lp.skip(k + 1));
                    assert(shapes(before)[before_state] == shape(before[before_state]));
                }
                let mut idx: usize = 0;
                while idx < self.nodes[state].trans.len() && self.nodes[state].trans[idx] != b
                    invariant
                        state < self.nodes@.len(),
                        0 <= idx <= self.nodes@[state as int].trans@.len(),
                        first_index(self.nodes@[state as int].trans@, b, 0) == first_index(
                            self.nodes@[state as int].trans@,
                            b,
                            idx as int,
                        ),
                    decreases self.nodes@[state as int].trans@.len() - idx,
                {
                    idx += 1;
                }
                if idx < self.nodes[state].trans.len() {
                    assert(first_index(self.nodes@[state as int].trans@, b, idx as int) == Some(
                        idx as int,
                    ));
                    state = self.nodes[state].targets[idx];
                    assert(walk(self.nodes@, 0, letters(p.take(i + 1))) == Some(state as int));
                    assert(step_shape(shapes(before), before_state, b) == Some(state as int));
                } else {
                    let mut n = copy_node(&self.nodes[state]);
                    n.trans.push(b);
                    n.targets.push(len);
                    self.nodes.set(state, n);
                    self.nodes.push(Node { trans: Vec::new(), targets: Vec::new(), levels: None });
                    proof {
                        let after = self.nodes@;
                        assert forall|y: int, c: u8|
                            0 <= y < before.len() && (#[trigger] step_node(before, y, c)) is Some implies step_node(
                                after,
                                y,
                                c,
                            ) == step_node(before, y, c) by {
                            lemma_first_index_push(before[y].trans@, b, c, 0);
                        }
                        lemma_first_index_push(before[state as int].trans@, b, b, 0);
                        assert(step_node(after, state as int, b) == Some(len as int));
                        assert forall|path: Seq<u8>|
                            #[trigger] walk(nodes0, 0, path) is Some implies walk(after, 0, path)
                                == walk(nodes0, 0, path) by {
                            lemma_walk_kept(before, after, 0, path);
                        }
                        lemma_walk_kept(before, after, 0, letters(p.take(i as int)));
                        assert(step_shape(shapes(before), before_state, b) is None);
                        assert(shapes(after) =~= grow(shapes(before), before_state, b));
                    }
                    state = len;
                    assert(walk(self.nodes@, 0, letters(p.take(i + 1))) == Some(state as int));
                }
                dist += 1;
            }
            i += 1;
        }
        assert(p.take(i as int) =~= p);
        let offset = intern(&mut self.levels, &vector);
        let mut n = copy_node(&self.nodes[state]);
        n.levels = Some((offset, vector.len()));
        let ghost before = self.nodes@;
        self.nodes.set(state, n);
        proof {
            assert(letters(p).skip(letters(p).len() as int) =~= Seq::<u8>::empty());
            assert(shapes(self.nodes@) =~= inserted_shapes(shapes(nodes0), old(self).levels@, p));
            let after = self.nodes@;
            assert forall|y: int, c: u8|
                0 <= y < before.len() && (#[trigger] step_node(before, y, c)) is Some implies step_node(
                    after,
                    y,
                    c,
                ) == step_node(before, y, c) by {}
            assert forall|path: Seq<u8>|
                #[trigger] walk(nodes0, 0, path) is Some implies walk(after, 0, path) == walk(
                    nodes0,
                    0,
                    path,
                ) by {
                lemma_walk_kept(before, after, 0, path);
            }
            lemma_walk_kept(before, after, 0, letters(p));
        }
    }
}

} // verus!
