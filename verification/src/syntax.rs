//! A read-only model of a parsed syntax tree: an arena of nodes, each with a
//! kind tag, a half-open text range, ordered children and a parent link.
//! Children tile their parent's range exactly, and the leaves tile the text,
//! so a leaf's text is the slice of the source at its range.

use vstd::prelude::*;

verus! {

/// The closed set of node kinds the editing rules distinguish.  Every other
/// token or interior node of a real parse appears as `OtherToken` or
/// `OtherNode`; expression nodes that are not block expressions appear as
/// `Expr`.
#[derive(Clone, Copy, PartialEq, Eq, Structural, Debug)]
pub enum SyntaxKind {
    Whitespace,
    Comment,
    Comma,
    Dot,
    Semi,
    LParen,
    RParen,
    LBrack,
    RBrack,
    LCurly,
    RCurly,
    Block,
    BlockExpr,
    LetStmt,
    Expr,
    OtherToken,
    OtherNode,
}

/// Kinds that cast to an expression.
pub open spec fn is_expr_kind(k: SyntaxKind) -> bool {
    k == SyntaxKind::Expr || k == SyntaxKind::BlockExpr
}

/// One node of the arena.  A node without children is a leaf and owns the
/// text of its range.
#[derive(Clone, Debug)]
pub struct NodeData {
    pub kind: SyntaxKind,
    pub start: usize,
    pub end: usize,
    pub parent: usize,
    pub children: Vec<usize>,
}

/// The `k`-th child entry of node `i` is consistent: it points down the
/// arena to a node that points back, and it abuts the next child.
pub open spec fn child_ok(tlen: int, nodes: Seq<NodeData>, i: int, k: int) -> bool {
    let c = nodes[i].children@;
    let ck = c[k] as int;
    &&& i < ck < nodes.len()
    &&& nodes[ck].parent as int == i
    &&& (k + 1 < c.len() ==> c[k] < c[k + 1] && nodes[ck].end == nodes[c[k + 1] as int].start)
}

/// Node `i` of the arena is consistent: its range is within the text, its
/// parent lies above it in the arena and lists it as a child, and its own
/// children tile its range exactly.  Leaves are never empty.
pub open spec fn node_ok(tlen: int, nodes: Seq<NodeData>, i: int) -> bool {
    let nd = nodes[i];
    let c = nd.children@;
    &&& nd.start <= nd.end && nd.end <= tlen
    &&& (i > 0 ==> nd.parent < i && nodes[nd.parent as int].children@.contains(i as usize))
    &&& (i == 0 ==> nd.parent == 0)
    &&& (forall|k: int| 0 <= k < c.len() ==> child_ok(tlen, nodes, i, k))
    &&& (c.len() > 0 ==> nodes[c[0] as int].start == nd.start && nodes[c[c.len() - 1] as int].end
        == nd.end)
    &&& (c.len() == 0 ==> nd.start < nd.end)
}

/// The whole arena is a well-formed tree over a text of length `tlen`:
/// node 0 is the root and covers the text, every node is consistent, and the
/// leaves appear in source order.
pub open spec fn tree_ok(tlen: int, nodes: Seq<NodeData>) -> bool {
    &&& tlen > 0
    &&& nodes.len() > 0
    &&& nodes[0].start == 0
    &&& nodes[0].end == tlen
    &&& nodes[0].parent == 0
    &&& nodes[0].children@.len() > 0
    &&& (forall|i: int| 0 <= i < nodes.len() ==> node_ok(tlen, nodes, i))
    &&& (forall|i: int, j: int|
        #![trigger nodes[i], nodes[j]]
        0 <= i < j < nodes.len() && nodes[i].children@.len() == 0 && nodes[j].children@.len() == 0
            ==> nodes[i].end <= nodes[j].start)
}

/// An immutable parsed file: the source text and the node arena.
#[derive(Clone, Debug)]
pub struct SyntaxTree {
    pub text: Vec<u8>,
    pub nodes: Vec<NodeData>,
}

impl SyntaxTree {
    /// The tree is well formed.
    pub open spec fn wf(&self) -> bool {
        tree_ok(self.text@.len() as int, self.nodes@)
    }

    /// `i` indexes a node of the arena.
    pub open spec fn is_valid(&self, i: int) -> bool {
        0 <= i < self.nodes@.len()
    }

    /// The kind of node `i`.
    pub open spec fn k_of(&self, i: int) -> SyntaxKind {
        self.nodes@[i].kind
    }

    /// Where node `i`'s range begins.
    pub open spec fn lo(&self, i: int) -> int {
        self.nodes@[i].start as int
    }

    /// Where node `i`'s range ends.
    pub open spec fn hi(&self, i: int) -> int {
        self.nodes@[i].end as int
    }

    /// Node `i` owns text: it has no children.
    pub open spec fn is_leaf(&self, i: int) -> bool {
        self.nodes@[i].children@.len() == 0
    }

    /// Node `i` is the leaf whose text holds position `q`.
    pub open spec fn leaf_containing(&self, i: int, q: int) -> bool {
        self.is_valid(i) && self.is_leaf(i) && self.lo(i) <= q < self.hi(i)
    }

    /// The position whose leaf is the left-biased leaf at `offset`: the leaf
    /// just before the offset, except at the very start of the text.
    pub open spec fn left_query(offset: int) -> int {
        if offset == 0 {
            0
        } else {
            offset - 1
        }
    }

    /// The nearest enclosing binding statement of node `i`, itself included.
    pub open spec fn nearest_let(&self, i: int) -> Option<int>
        decreases i,
        when 0 <= i < self.nodes@.len() && self.wf()
        via Self::nearest_let_decreases
    {
        if self.nodes@[i].kind == SyntaxKind::LetStmt {
            Some(i)
        } else if i == 0 {
            None
        } else {
            self.nearest_let(self.nodes@[i].parent as int)
        }
    }

    #[via_fn]
    proof fn nearest_let_decreases(&self, i: int) {
        assert(node_ok(self.text@.len() as int, self.nodes@, i));
    }

    /// The last child of statement `st` is its terminator token.
    pub open spec fn let_has_semi(&self, st: int) -> bool {
        let c = self.nodes@[st].children@;
        c.len() > 0 && self.nodes@[c[c.len() - 1] as int].kind == SyntaxKind::Semi
    }

    /// The first child of `i` from position `k` on whose kind is an
    /// expression kind.
    pub open spec fn first_expr_child_from(&self, i: int, k: int) -> Option<int>
        decreases self.nodes@[i].children@.len() - k,
    {
        let c = self.nodes@[i].children@;
        if k < 0 || k >= c.len() {
            None
        } else if is_expr_kind(self.nodes@[c[k] as int].kind) {
            Some(c[k] as int)
        } else {
            self.first_expr_child_from(i, k + 1)
        }
    }

    /// The initializer expression of binding statement `st`: its first child
    /// of expression kind.
    pub open spec fn let_initializer(&self, st: int) -> Option<int> {
        self.first_expr_child_from(st, 0)
    }

    /// The position of node `i` in its parent's children list.
    pub open spec fn child_pos(&self, i: int) -> int {
        choose|k: int|
            0 <= k < self.nodes@[self.nodes@[i].parent as int].children@.len()
                && self.nodes@[self.nodes@[i].parent as int].children@[k] == i as usize
    }

    /// The sibling just before node `i`, if any.
    pub open spec fn sib_prev(&self, i: int) -> Option<int> {
        let c = self.nodes@[self.nodes@[i].parent as int].children@;
        let k = self.child_pos(i);
        if k > 0 {
            Some(c[k - 1] as int)
        } else {
            None
        }
    }

    /// The sibling just after node `i`, if any.
    pub open spec fn sib_next(&self, i: int) -> Option<int> {
        let c = self.nodes@[self.nodes@[i].parent as int].children@;
        let k = self.child_pos(i);
        if k + 1 < c.len() {
            Some(c[k + 1] as int)
        } else {
            None
        }
    }

    /// Validates an arena against a text.  The result is the tree, exactly
    /// when the arena is well formed over the text.
    pub fn new(text: Vec<u8>, nodes: Vec<NodeData>) -> (r: Option<SyntaxTree>)
        ensures
            r.is_some() <==> tree_ok(text@.len() as int, nodes@),
            match r {
                Some(t) => t.text@ == text@ && t.nodes@ == nodes@ && t.wf(),
                None => true,
            },
    {
        if check_tree(&text, &nodes) {
            Some(SyntaxTree { text, nodes })
        } else {
            None
        }
    }

    /// The leaf whose text holds position `q`.
    pub fn leaf_at(&self, q: usize) -> (r: usize)
        requires
            self.wf(),
            q < self.text@.len(),
        ensures
            self.leaf_containing(r as int, q as int),
    {
        let mut cur: usize = 0;
        while self.nodes[cur].children.len() > 0
            invariant
                self.wf(),
                self.is_valid(cur as int),
                self.lo(cur as int) <= q < self.hi(cur as int),
            decreases self.nodes@.len() - cur,
        {
            proof {
                assert(node_ok(self.text@.len() as int, self.nodes@, cur as int));
            }
            let cnt: usize = self.nodes[cur].children.len();
            let mut k: usize = 0;
            let mut chosen: usize = cur;
            let mut found: bool = false;
            while k < cnt && !found
                invariant
                    self.wf(),
                    self.is_valid(cur as int),
                    self.lo(cur as int) <= q < self.hi(cur as int),
                    cnt == self.nodes@[cur as int].children@.len(),
                    k <= cnt,
                    !found ==> forall|m: int|
                        0 <= m < k ==> self.hi(
                            #[trigger] self.nodes@[cur as int].children@[m] as int,
                        ) <= q,
                    found ==> self.is_valid(chosen as int) && cur < chosen && self.lo(
                        chosen as int,
                    ) <= q < self.hi(chosen as int),
                decreases cnt - k + (if found {
                    0int
                } else {
                    1int
                }),
            {
                proof {
                    assert(node_ok(self.text@.len() as int, self.nodes@, cur as int));
                    assert(child_ok(self.text@.len() as int, self.nodes@, cur as int, k as int));
                    if k > 0 {
                        assert(child_ok(
                            self.text@.len() as int,
                            self.nodes@,
                            cur as int,
                            k as int - 1,
                        ));
                    }
                }
                let ck: usize = self.nodes[cur].children[k];
                if q < self.nodes[ck].end {
                    proof {
                        let c = self.nodes@[cur as int].children@;
                        if k == 0 {
                            assert(self.lo(ck as int) == self.lo(cur as int));
                        } else {
                            assert(self.hi(c[k as int - 1] as int) <= q);
                            assert(self.lo(ck as int) == self.hi(c[k as int - 1] as int));
                        }
                    }
                    chosen = ck;
                    found = true;
                } else {
                    k = k + 1;
                }
            }
            proof {
                if !found {
                    assert(node_ok(self.text@.len() as int, self.nodes@, cur as int));
                    let c = self.nodes@[cur as int].children@;
                    assert(self.hi(c[c.len() - 1] as int) <= q);
                    assert(false);
                }
            }
            cur = chosen;
        }
        cur
    }

    /// The leaf at `offset`, biased to the left at a boundary between two
    /// tokens; `None` past the end of the text.
    pub fn leaf_left_biased(&self, offset: usize) -> (r: Option<usize>)
        requires
            self.wf(),
        ensures
            match r {
                Some(l) => offset <= self.text@.len() && self.leaf_containing(
                    l as int,
                    Self::left_query(offset as int),
                ),
                None => offset > self.text@.len(),
            },
    {
        if offset > self.text.len() {
            return None;
        }
        let q: usize = if offset == 0 {
            0
        } else {
            offset - 1
        };
        Some(self.leaf_at(q))
    }

    /// The sibling just before node `i` under their parent, if any; `None`
    /// iff `i` is its parent's first child.
    pub fn prev_sibling(&self, i: usize) -> (r: Option<usize>)
        requires
            self.wf(),
            0 < i < self.nodes@.len(),
        ensures
            match r {
                Some(p) => {
                    &&& self.sib_prev(i as int) == Some(p as int)
                    &&& self.is_valid(p as int)
                    &&& self.nodes@[p as int].parent == self.nodes@[i as int].parent
                    &&& self.hi(p as int) == self.lo(i as int)
                },
                None => {
                    &&& self.sib_prev(i as int) is None
                    &&& self.nodes@[self.nodes@[i as int].parent as int].children@[0] == i
                },
            },
    {
        proof {
            assert(node_ok(self.text@.len() as int, self.nodes@, i as int));
        }
        let par: usize = self.nodes[i].parent;
        proof {
            assert(node_ok(self.text@.len() as int, self.nodes@, par as int));
        }
        let cnt: usize = self.nodes[par].children.len();
        let mut k: usize = 0;
        while k < cnt
            invariant
                self.wf(),
                0 < i < self.nodes@.len(),
                par == self.nodes@[i as int].parent,
                par < self.nodes@.len(),
                cnt == self.nodes@[par as int].children@.len(),
                k <= cnt,
                forall|m: int| 0 <= m < k ==> self.nodes@[par as int].children@[m] != i,
            decreases cnt - k,
        {
            let ck: usize = self.nodes[par].children[k];
            if ck == i {
                proof {
                    lemma_child_pos_unique(self, i as int, k as int);
                }
                if k == 0 {
                    return None;
                }
                proof {
                    assert(node_ok(self.text@.len() as int, self.nodes@, par as int));
                    assert(child_ok(self.text@.len() as int, self.nodes@, par as int, k as int - 1));
                }
                let p: usize = self.nodes[par].children[k - 1];
                return Some(p);
            }
            k = k + 1;
        }
        proof {
            assert(node_ok(self.text@.len() as int, self.nodes@, i as int));
            let c = self.nodes@[par as int].children@;
            assert(c.contains(i));
            let kk = choose|kk: int| 0 <= kk < c.len() && c[kk] == i;
            assert(c[kk] != i);
            assert(false);
        }
        None
    }

    /// The sibling just after node `i` under their parent, if any; `None`
    /// iff `i` is its parent's last child.
    pub fn next_sibling(&self, i: usize) -> (r: Option<usize>)
        requires
            self.wf(),
            0 < i < self.nodes@.len(),
        ensures
            match r {
                Some(nx) => {
                    &&& self.sib_next(i as int) == Some(nx as int)
                    &&& self.is_valid(nx as int)
                    &&& self.nodes@[nx as int].parent == self.nodes@[i as int].parent
                    &&& self.lo(nx as int) == self.hi(i as int)
                },
                None => {
                    let c = self.nodes@[self.nodes@[i as int].parent as int].children@;
                    &&& self.sib_next(i as int) is None
                    &&& c[c.len() - 1] == i
                },
            },
    {
        proof {
            assert(node_ok(self.text@.len() as int, self.nodes@, i as int));
        }
        let par: usize = self.nodes[i].parent;
        proof {
            assert(node_ok(self.text@.len() as int, self.nodes@, par as int));
        }
        let cnt: usize = self.nodes[par].children.len();
        let mut k: usize = 0;
        while k < cnt
            invariant
                self.wf(),
                0 < i < self.nodes@.len(),
                par == self.nodes@[i as int].parent,
                par < self.nodes@.len(),
                cnt == self.nodes@[par as int].children@.len(),
                k <= cnt,
                forall|m: int| 0 <= m < k ==> self.nodes@[par as int].children@[m] != i,
            decreases cnt - k,
        {
            let ck: usize = self.nodes[par].children[k];
            if ck == i {
                proof {
                    lemma_child_pos_unique(self, i as int, k as int);
                }
                if k + 1 == cnt {
                    return None;
                }
                proof {
                    assert(node_ok(self.text@.len() as int, self.nodes@, par as int));
                    assert(child_ok(self.text@.len() as int, self.nodes@, par as int, k as int));
                    assert(child_ok(
                        self.text@.len() as int,
                        self.nodes@,
                        par as int,
                        k as int + 1,
                    ));
                }
                let nx: usize = self.nodes[par].children[k + 1];
                return Some(nx);
            }
            k = k + 1;
        }
        proof {
            assert(node_ok(self.text@.len() as int, self.nodes@, i as int));
            let c = self.nodes@[par as int].children@;
            assert(c.contains(i));
            let kk = choose|kk: int| 0 <= kk < c.len() && c[kk] == i;
            assert(c[kk] != i);
            assert(false);
        }
        None
    }

    /// A node whose range contains `[start, end)` and none of whose children
    /// does: the smallest covering node along a root path.
    pub fn covering_node(&self, start: usize, end: usize) -> (r: usize)
        requires
            self.wf(),
            start <= end,
            end <= self.text@.len(),
        ensures
            self.is_valid(r as int),
            self.lo(r as int) <= start,
            end <= self.hi(r as int),
            forall|k: int|
                0 <= k < self.nodes@[r as int].children@.len() ==> !(self.lo(
                    #[trigger] self.nodes@[r as int].children@[k] as int,
                ) <= start && end <= self.hi(self.nodes@[r as int].children@[k] as int)),
    {
        let mut cur: usize = 0;
        let mut done: bool = false;
        while !done
            invariant
                self.wf(),
                self.is_valid(cur as int),
                self.lo(cur as int) <= start,
                end <= self.hi(cur as int),
                done ==> forall|k: int|
                    0 <= k < self.nodes@[cur as int].children@.len() ==> !(self.lo(
                        #[trigger] self.nodes@[cur as int].children@[k] as int,
                    ) <= start && end <= self.hi(self.nodes@[cur as int].children@[k] as int)),
            decreases self.nodes@.len() - cur + (if done {
                0int
            } else {
                1int
            }),
        {
            let cnt: usize = self.nodes[cur].children.len();
            let mut k: usize = 0;
            let mut next: usize = cur;
            let mut found: bool = false;
            while k < cnt && !found
                invariant
                    self.wf(),
                    self.is_valid(cur as int),
                    cnt == self.nodes@[cur as int].children@.len(),
                    k <= cnt,
                    !found ==> forall|m: int|
                        0 <= m < k ==> !(self.lo(
                            #[trigger] self.nodes@[cur as int].children@[m] as int,
                        ) <= start && end <= self.hi(self.nodes@[cur as int].children@[m] as int)),
                    found ==> self.is_valid(next as int) && cur < next && self.lo(next as int)
                        <= start && end <= self.hi(next as int),
                decreases cnt - k + (if found {
                    0int
                } else {
                    1int
                }),
            {
                proof {
                    assert(node_ok(self.text@.len() as int, self.nodes@, cur as int));
                    assert(child_ok(self.text@.len() as int, self.nodes@, cur as int, k as int));
                }
                let ck: usize = self.nodes[cur].children[k];
                if self.nodes[ck].start <= start && end <= self.nodes[ck].end {
                    next = ck;
                    found = true;
                } else {
                    k = k + 1;
                }
            }
            if found {
                cur = next;
            } else {
                done = true;
            }
        }
        cur
    }

    /// The nearest binding-statement ancestor of node `i`, itself included.
    pub fn find_let_ancestor(&self, i: usize) -> (r: Option<usize>)
        requires
            self.wf(),
            self.is_valid(i as int),
        ensures
            match r {
                Some(a) => self.nearest_let(i as int) == Some(a as int) && self.is_valid(a as int)
                    && self.k_of(a as int) == SyntaxKind::LetStmt,
                None => self.nearest_let(i as int) is None,
            },
    {
        let mut cur: usize = i;
        while self.nodes[cur].kind != SyntaxKind::LetStmt && cur != 0
            invariant
                self.wf(),
                self.is_valid(cur as int),
                self.nearest_let(i as int) == self.nearest_let(cur as int),
            decreases cur,
        {
            proof {
                assert(node_ok(self.text@.len() as int, self.nodes@, cur as int));
            }
            cur = self.nodes[cur].parent;
        }
        if self.nodes[cur].kind == SyntaxKind::LetStmt {
            Some(cur)
        } else {
            None
        }
    }
}

/// Children stand in strictly increasing arena order.
proof fn lemma_children_increasing(t: &SyntaxTree, i: int, k1: int, k2: int)
    requires
        t.wf(),
        t.is_valid(i),
        0 <= k1 < k2 < t.nodes@[i].children@.len(),
    ensures
        t.nodes@[i].children@[k1] < t.nodes@[i].children@[k2],
    decreases k2 - k1,
{
    assert(node_ok(t.text@.len() as int, t.nodes@, i));
    assert(child_ok(t.text@.len() as int, t.nodes@, i, k1));
    if k1 + 1 < k2 {
        lemma_children_increasing(t, i, k1 + 1, k2);
    }
}

/// A node stands at exactly one position in its parent's children list.
pub proof fn lemma_child_pos_unique(t: &SyntaxTree, i: int, k: int)
    requires
        t.wf(),
        0 < i < t.nodes@.len(),
        0 <= k < t.nodes@[t.nodes@[i].parent as int].children@.len(),
        t.nodes@[t.nodes@[i].parent as int].children@[k] == i as usize,
    ensures
        t.child_pos(i) == k,
{
    assert(node_ok(t.text@.len() as int, t.nodes@, i));
    let par = t.nodes@[i].parent as int;
    let c = t.nodes@[par].children@;
    let k2 = t.child_pos(i);
    assert(0 <= k2 < c.len() && c[k2] == i as usize);
    if k < k2 {
        lemma_children_increasing(t, par, k, k2);
        assert(false);
    }
    if k2 < k {
        lemma_children_increasing(t, par, k2, k);
        assert(false);
    }
}

/// A leaf holding position `q` is the only one: leaves appear in source
/// order and are never empty.
pub proof fn lemma_leaf_unique(t: &SyntaxTree, a: int, b: int, q: int)
    requires
        t.wf(),
        t.leaf_containing(a, q),
        t.leaf_containing(b, q),
    ensures
        a == b,
{
    if a < b {
        assert(t.nodes@[a].end <= t.nodes@[b].start);
    }
    if b < a {
        assert(t.nodes@[b].end <= t.nodes@[a].start);
    }
}

/// The range of the `k`-th child starts no earlier than its parent's.
proof fn lemma_child_lower(t: &SyntaxTree, i: int, k: int)
    requires
        t.wf(),
        t.is_valid(i),
        0 <= k < t.nodes@[i].children@.len(),
    ensures
        t.is_valid(t.nodes@[i].children@[k] as int),
        t.lo(i) <= t.lo(t.nodes@[i].children@[k] as int),
    decreases k,
{
    assert(node_ok(t.text@.len() as int, t.nodes@, i));
    assert(child_ok(t.text@.len() as int, t.nodes@, i, k));
    if k > 0 {
        lemma_child_lower(t, i, k - 1);
        assert(child_ok(t.text@.len() as int, t.nodes@, i, k - 1));
        let prev = t.nodes@[i].children@[k - 1] as int;
        assert(node_ok(t.text@.len() as int, t.nodes@, prev));
    }
}

/// The range of the `k`-th child ends no later than its parent's.
proof fn lemma_child_upper(t: &SyntaxTree, i: int, k: int)
    requires
        t.wf(),
        t.is_valid(i),
        0 <= k < t.nodes@[i].children@.len(),
    ensures
        t.is_valid(t.nodes@[i].children@[k] as int),
        t.hi(t.nodes@[i].children@[k] as int) <= t.hi(i),
    decreases t.nodes@[i].children@.len() - k,
{
    assert(node_ok(t.text@.len() as int, t.nodes@, i));
    assert(child_ok(t.text@.len() as int, t.nodes@, i, k));
    if k + 1 < t.nodes@[i].children@.len() {
        lemma_child_upper(t, i, k + 1);
        let nxt = t.nodes@[i].children@[k + 1] as int;
        assert(node_ok(t.text@.len() as int, t.nodes@, nxt));
    }
}

/// A child's range lies within its parent's range.
pub proof fn lemma_child_in_parent(t: &SyntaxTree, i: int, k: int)
    requires
        t.wf(),
        t.is_valid(i),
        0 <= k < t.nodes@[i].children@.len(),
    ensures
        t.is_valid(t.nodes@[i].children@[k] as int),
        t.lo(i) <= t.lo(t.nodes@[i].children@[k] as int),
        t.hi(t.nodes@[i].children@[k] as int) <= t.hi(i),
        t.lo(t.nodes@[i].children@[k] as int) <= t.hi(t.nodes@[i].children@[k] as int),
{
    lemma_child_lower(t, i, k);
    lemma_child_upper(t, i, k);
    assert(node_ok(t.text@.len() as int, t.nodes@, t.nodes@[i].children@[k] as int));
}

/// Checks one node of a candidate arena.
fn check_node(tlen: usize, nodes: &Vec<NodeData>, i: usize) -> (r: bool)
    requires
        i < nodes@.len(),
    ensures
        r == node_ok(tlen as int, nodes@, i as int),
{
    let nd_start: usize = nodes[i].start;
    let nd_end: usize = nodes[i].end;
    let nd_parent: usize = nodes[i].parent;
    let cnt: usize = nodes[i].children.len();
    if !(nd_start <= nd_end && nd_end <= tlen) {
        return false;
    }
    if i == 0 {
        if nd_parent != 0 {
            return false;
        }
    } else {
        if !(nd_parent < i) {
            return false;
        }
        let pcnt: usize = nodes[nd_parent].children.len();
        let mut m: usize = 0;
        let mut member: bool = false;
        while m < pcnt && !member
            invariant
                nd_parent < nodes@.len(),
                pcnt == nodes@[nd_parent as int].children@.len(),
                m <= pcnt,
                !member ==> forall|x: int|
                    0 <= x < m ==> nodes@[nd_parent as int].children@[x] != i,
                member ==> nodes@[nd_parent as int].children@.contains(i),
            decreases pcnt - m + (if member {
                0int
            } else {
                1int
            }),
        {
            if nodes[nd_parent].children[m] == i {
                assert(nodes@[nd_parent as int].children@[m as int] == i);
                member = true;
            } else {
                m = m + 1;
            }
        }
        if !member {
            proof {
                if nodes@[nd_parent as int].children@.contains(i) {
                    let c = nodes@[nd_parent as int].children@;
                    let kk = choose|kk: int| 0 <= kk < c.len() && c[kk] == i;
                    assert(c[kk] != i);
                }
            }
            return false;
        }
    }
    if cnt == 0 {
        if !(nd_start < nd_end) {
            return false;
        }
    } else {
        let c0: usize = nodes[i].children[0];
        if !(c0 < nodes.len() && nodes[c0].start == nd_start) {
            proof {
                if c0 < nodes@.len() {
                    assert(!node_ok(tlen as int, nodes@, i as int));
                } else {
                    assert(!child_ok(tlen as int, nodes@, i as int, 0));
                }
            }
            return false;
        }
        let clast: usize = nodes[i].children[cnt - 1];
        if !(clast < nodes.len() && nodes[clast].end == nd_end) {
            proof {
                if clast < nodes@.len() {
                    assert(!node_ok(tlen as int, nodes@, i as int));
                } else {
                    assert(!child_ok(tlen as int, nodes@, i as int, cnt as int - 1));
                }
            }
            return false;
        }
        let mut k: usize = 0;
        while k < cnt
            invariant
                i < nodes@.len(),
                cnt == nodes@[i as int].children@.len(),
                k <= cnt,
                forall|m: int| 0 <= m < k ==> child_ok(tlen as int, nodes@, i as int, m),
            decreases cnt - k,
        {
            let ck: usize = nodes[i].children[k];
            if !(i < ck && ck < nodes.len()) {
                proof {
                    assert(!child_ok(tlen as int, nodes@, i as int, k as int));
                }
                return false;
            }
            if nodes[ck].parent != i {
                proof {
                    assert(!child_ok(tlen as int, nodes@, i as int, k as int));
                }
                return false;
            }
            if k + 1 < cnt {
                let cn: usize = nodes[i].children[k + 1];
                if !(ck < cn) {
                    proof {
                        assert(!child_ok(tlen as int, nodes@, i as int, k as int));
                    }
                    return false;
                }
                if !(cn < nodes.len()) {
                    proof {
                        assert(!child_ok(tlen as int, nodes@, i as int, k as int + 1));
                    }
                    return false;
                }
                if nodes[ck].end != nodes[cn].start {
                    proof {
                        assert(!child_ok(tlen as int, nodes@, i as int, k as int));
                    }
                    return false;
                }
            }
            k = k + 1;
        }
    }
    proof {
        assert(node_ok(tlen as int, nodes@, i as int));
    }
    true
}

/// Checks a whole candidate arena against a text.
fn check_tree(text: &Vec<u8>, nodes: &Vec<NodeData>) -> (r: bool)
    ensures
        r == tree_ok(text@.len() as int, nodes@),
{
    if text.len() == 0 || nodes.len() == 0 {
        return false;
    }
    let root_kids: usize = nodes[0].children.len();
    if !(nodes[0].start == 0 && nodes[0].end == text.len() && nodes[0].parent == 0 && root_kids
        > 0) {
        return false;
    }
    let mut i: usize = 0;
    while i < nodes.len()
        invariant
            i <= nodes@.len(),
            forall|m: int| 0 <= m < i ==> node_ok(text@.len() as int, nodes@, m),
        decreases nodes@.len() - i,
    {
        if !check_node(text.len(), nodes, i) {
            return false;
        }
        i = i + 1;
    }
    let mut a: usize = 0;
    while a < nodes.len()
        invariant
            a <= nodes@.len(),
            forall|x: int, y: int|
                #![trigger nodes@[x], nodes@[y]]
                0 <= x < y < nodes@.len() && x < a && nodes@[x].children@.len() == 0
                    && nodes@[y].children@.len() == 0 ==> nodes@[x].end <= nodes@[y].start,
        decreases nodes@.len() - a,
    {
        if nodes[a].children.len() == 0 {
            let mut b: usize = a + 1;
            while b < nodes.len()
                invariant
                    a < nodes@.len(),
                    a < b,
                    b <= nodes@.len(),
                    nodes@[a as int].children@.len() == 0,
                    forall|x: int, y: int|
                        #![trigger nodes@[x], nodes@[y]]
                        0 <= x < y < nodes@.len() && x < a && nodes@[x].children@.len() == 0
                            && nodes@[y].children@.len() == 0 ==> nodes@[x].end
                            <= nodes@[y].start,
                    forall|y: int|
                        a < y < b && nodes@[y].children@.len() == 0 ==> nodes@[a as int].end <= (
                        #[trigger] nodes@[y]).start,
                decreases nodes@.len() - b,
            {
                if nodes[b].children.len() == 0 && nodes[a].end > nodes[b].start {
                    return false;
                }
                b = b + 1;
            }
        }
        a = a + 1;
    }
    proof {
        assert forall|x: int, y: int|
            #![trigger nodes@[x], nodes@[y]]
            0 <= x < y < nodes@.len() && nodes@[x].children@.len() == 0
                && nodes@[y].children@.len() == 0 implies nodes@[x].end <= nodes@[y].start by {
            assert(x < a);
        };
    }
    true
}

} // verus!
