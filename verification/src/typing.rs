//! The editing assists: the line-join engine, comment continuation on
//! Enter, and auto-termination of a completed binding statement.

use vstd::prelude::*;

use crate::edit::{
    atom_wf, atoms_bounded, atoms_disjoint, atoms_sorted, Edit, EditBuilder, LocalEdit, SpecAtom,
};
use crate::syntax::{
    child_ok, is_expr_kind, lemma_child_in_parent, lemma_leaf_unique,
    node_ok, SyntaxKind, SyntaxTree,
};
use crate::text::{
    append_range, copy_range, count_newlines, find_newline_from, has_newline,
    has_newline_between, intersect, last_newline_in, newline_count, space_run, space_run_spec,
    TextRange, BANG, NEWLINE, SEMICOLON, SLASH, SPACE, STAR,
};

verus! {

/// The length of the comment marker at the start of `[s, e)`: `////...` and
/// `//` lead with two bytes, the documentation markers `///` and `//!` with
/// three, a block comment `/*` with two; anything else is no comment text.
pub open spec fn comment_prefix_len_spec(t: Seq<u8>, s: int, e: int) -> int {
    if e - s >= 4 && t[s] == SLASH && t[s + 1] == SLASH && t[s + 2] == SLASH && t[s + 3] == SLASH {
        2
    } else if e - s >= 3 && t[s] == SLASH && t[s + 1] == SLASH && t[s + 2] == SLASH {
        3
    } else if e - s >= 3 && t[s] == SLASH && t[s + 1] == SLASH && t[s + 2] == BANG {
        3
    } else if e - s >= 2 && t[s] == SLASH && t[s + 1] == SLASH {
        2
    } else if e - s >= 2 && t[s] == SLASH && t[s + 1] == STAR {
        2
    } else {
        0
    }
}

/// The text of `[s, e)` is a single-line comment: it starts with `//`.
pub open spec fn is_line_comment_text(t: Seq<u8>, s: int, e: int) -> bool {
    e - s >= 2 && t[s] == SLASH && t[s + 1] == SLASH
}

/// The length of the comment marker at the start of `[s, e)`.
fn comment_prefix_len(text: &Vec<u8>, s: usize, e: usize) -> (r: usize)
    requires
        s <= e <= text@.len(),
    ensures
        r == comment_prefix_len_spec(text@, s as int, e as int),
        s + r <= e,
        r <= 3,
{
    if e - s >= 4 && text[s] == SLASH && text[s + 1] == SLASH && text[s + 2] == SLASH && text[s
        + 3] == SLASH {
        2
    } else if e - s >= 3 && text[s] == SLASH && text[s + 1] == SLASH && text[s + 2] == SLASH {
        3
    } else if e - s >= 3 && text[s] == SLASH && text[s + 1] == SLASH && text[s + 2] == BANG {
        3
    } else if e - s >= 2 && text[s] == SLASH && text[s + 1] == SLASH {
        2
    } else if e - s >= 2 && text[s] == SLASH && text[s + 1] == STAR {
        2
    } else {
        0
    }
}

/// A one-byte text holding a single space.
fn one_space() -> (r: Vec<u8>)
    ensures
        r@ == seq![SPACE],
{
    let mut v: Vec<u8> = Vec::new();
    v.push(SPACE);
    proof {
        assert(v@ =~= seq![SPACE]);
    }
    v
}

/// The block-comment opener `/*`.
fn slash_star() -> (r: Vec<u8>)
    ensures
        r@ == seq![SLASH, STAR],
{
    let mut v: Vec<u8> = Vec::new();
    v.push(SLASH);
    v.push(STAR);
    proof {
        assert(v@ =~= seq![SLASH, STAR]);
    }
    v
}

/// A one-byte text holding the statement terminator `;`.
fn semicolon_text() -> (r: Vec<u8>)
    ensures
        r@ == seq![SEMICOLON],
{
    let mut v: Vec<u8> = Vec::new();
    v.push(SEMICOLON);
    proof {
        assert(v@ =~= seq![SEMICOLON]);
    }
    v
}

/// A comma directly before a closing parenthesis or bracket is a trailing
/// comma.
fn is_trailing_comma(left: SyntaxKind, right: SyntaxKind) -> (r: bool)
    ensures
        r == (left == SyntaxKind::Comma && (right == SyntaxKind::RParen || right
            == SyntaxKind::RBrack)),
{
    left == SyntaxKind::Comma && (right == SyntaxKind::RParen || right == SyntaxKind::RBrack)
}

/// The separator that joins two tokens onto one line: nothing directly after
/// an opener or before a closer or a member access, one space otherwise.
pub open spec fn compute_ws_spec(left: SyntaxKind, right: SyntaxKind) -> Seq<u8> {
    if left == SyntaxKind::LParen || left == SyntaxKind::LBrack {
        Seq::<u8>::empty()
    } else if right == SyntaxKind::RParen || right == SyntaxKind::RBrack || right
        == SyntaxKind::Dot {
        Seq::<u8>::empty()
    } else {
        seq![SPACE]
    }
}

/// The separator that joins the token before and after a removed newline.
fn compute_ws(left: SyntaxKind, right: SyntaxKind) -> (r: Vec<u8>)
    ensures
        r@ == compute_ws_spec(left, right),
{
    if left == SyntaxKind::LParen || left == SyntaxKind::LBrack {
        Vec::new()
    } else if right == SyntaxKind::RParen || right == SyntaxKind::RBrack || right
        == SyntaxKind::Dot {
        Vec::new()
    } else {
        one_space()
    }
}

/// Kinds a block may hold besides its single expression: its braces and
/// whitespace.
pub open spec fn block_trivial_kind(k: SyntaxKind) -> bool {
    k == SyntaxKind::Whitespace || k == SyntaxKind::LCurly || k == SyntaxKind::RCurly
}

/// The child at position `ke` of block `b` is its one non-trivial child: an
/// expression without a newline, with every other child trivial.
pub open spec fn single_expr_ok_at(tree: &SyntaxTree, b: int, ke: int) -> bool {
    let c = tree.nodes@[b].children@;
    &&& 0 <= ke < c.len()
    &&& tree.is_valid(c[ke] as int)
    &&& is_expr_kind(tree.k_of(c[ke] as int))
    &&& !has_newline(tree.text@, tree.lo(c[ke] as int), tree.hi(c[ke] as int))
    &&& forall|k: int|
        0 <= k < c.len() && k != ke ==> block_trivial_kind(tree.k_of(#[trigger] c[k] as int))
}

/// The single expression of block `b`: its only child that is an expression,
/// when that expression spans one line and everything else in the block is
/// braces or whitespace.
fn single_expr(tree: &SyntaxTree, b: usize) -> (r: Option<usize>)
    requires
        tree.wf(),
        tree.is_valid(b as int),
    ensures
        match r {
            Some(e) => exists|ke: int|
                #[trigger] single_expr_ok_at(tree, b as int, ke) && tree.nodes@[b as int].children@[ke]
                    == e,
            None => forall|ke: int| !single_expr_ok_at(tree, b as int, ke),
        },
{
    let cnt: usize = tree.nodes[b].children.len();
    let mut k: usize = 0;
    let mut res: Option<usize> = None;
    let ghost mut res_ke: int = 0;
    while k < cnt
        invariant
            tree.wf(),
            tree.is_valid(b as int),
            cnt == tree.nodes@[b as int].children@.len(),
            k <= cnt,
            match res {
                Some(e) => {
                    &&& 0 <= res_ke < k
                    &&& tree.nodes@[b as int].children@[res_ke] == e
                    &&& tree.is_valid(e as int)
                    &&& is_expr_kind(tree.k_of(e as int))
                    &&& !has_newline(tree.text@, tree.lo(e as int), tree.hi(e as int))
                    &&& forall|m: int|
                        0 <= m < k && m != res_ke ==> block_trivial_kind(
                            tree.k_of(#[trigger] tree.nodes@[b as int].children@[m] as int),
                        )
                },
                None => forall|m: int|
                    0 <= m < k ==> block_trivial_kind(
                        tree.k_of(#[trigger] tree.nodes@[b as int].children@[m] as int),
                    ),
            },
        decreases cnt - k,
    {
        proof {
            assert(node_ok(tree.text@.len() as int, tree.nodes@, b as int));
            assert(child_ok(tree.text@.len() as int, tree.nodes@, b as int, k as int));
        }
        let ck: usize = tree.nodes[b].children[k];
        let kd: SyntaxKind = tree.nodes[ck].kind;
        if kd == SyntaxKind::Expr || kd == SyntaxKind::BlockExpr {
            proof {
                assert(node_ok(tree.text@.len() as int, tree.nodes@, ck as int));
            }
            if has_newline_between(&tree.text, tree.nodes[ck].start, tree.nodes[ck].end) {
                proof {
                    assert forall|ke: int| !single_expr_ok_at(tree, b as int, ke) by {
                        if single_expr_ok_at(tree, b as int, ke) {
                            if ke == k {
                                assert(false);
                            } else {
                                assert(block_trivial_kind(
                                    tree.k_of(tree.nodes@[b as int].children@[k as int] as int),
                                ));
                                assert(false);
                            }
                        }
                    };
                }
                return None;
            }
            if res.is_some() {
                proof {
                    assert forall|ke: int| !single_expr_ok_at(tree, b as int, ke) by {
                        if single_expr_ok_at(tree, b as int, ke) {
                            if ke == k {
                                assert(block_trivial_kind(
                                    tree.k_of(
                                        tree.nodes@[b as int].children@[res_ke] as int,
                                    ),
                                ));
                                assert(false);
                            } else {
                                assert(block_trivial_kind(
                                    tree.k_of(tree.nodes@[b as int].children@[k as int] as int),
                                ));
                                assert(false);
                            }
                        }
                    };
                }
                return None;
            }
            res = Some(ck);
            proof {
                res_ke = k as int;
            }
        } else {
            if !(kd == SyntaxKind::Whitespace || kd == SyntaxKind::LCurly || kd
                == SyntaxKind::RCurly) {
                proof {
                    assert forall|ke: int| !single_expr_ok_at(tree, b as int, ke) by {
                        if single_expr_ok_at(tree, b as int, ke) {
                            if ke == k {
                                assert(false);
                            } else {
                                assert(block_trivial_kind(
                                    tree.k_of(tree.nodes@[b as int].children@[k as int] as int),
                                ));
                                assert(false);
                            }
                        }
                    };
                }
                return None;
            }
        }
        k = k + 1;
    }
    proof {
        match res {
            Some(e) => {
                assert(single_expr_ok_at(tree, b as int, res_ke));
            },
            None => {
                assert forall|ke: int| !single_expr_ok_at(tree, b as int, ke) by {
                    if single_expr_ok_at(tree, b as int, ke) {
                        assert(block_trivial_kind(
                            tree.k_of(tree.nodes@[b as int].children@[ke] as int),
                        ));
                        assert(false);
                    }
                };
            },
        }
    }
    res
}

/// At most one child position of a block satisfies the single-expression
/// shape: any other position would have to be trivial and an expression at
/// once.
proof fn lemma_single_expr_unique(tree: &SyntaxTree, b: int, k1: int, k2: int)
    requires
        single_expr_ok_at(tree, b, k1),
        single_expr_ok_at(tree, b, k2),
    ensures
        k1 == k2,
{
    if k1 != k2 {
        assert(block_trivial_kind(tree.k_of(tree.nodes@[b].children@[k2] as int)));
        assert(is_expr_kind(tree.k_of(tree.nodes@[b].children@[k2] as int)));
    }
}

/// The whitespace leaf `node` sits in a block of a block expression that
/// holds a single one-line expression, so the whole `{ ... }` wrapper can be
/// replaced by that expression's text.
pub open spec fn jseb_enabled(tree: &SyntaxTree, node: int) -> bool {
    let b = tree.nodes@[node].parent as int;
    let g = tree.nodes@[b].parent as int;
    &&& node != 0
    &&& tree.k_of(b) == SyntaxKind::Block
    &&& b != 0
    &&& tree.k_of(g) == SyntaxKind::BlockExpr
    &&& exists|ke: int| #[trigger] single_expr_ok_at(tree, b, ke)
}

/// Replaces the block expression around `node`'s block by the text of the
/// block's single one-line expression, when the shape allows it.
fn join_single_expr_block(tree: &SyntaxTree, node: usize, edit: &mut EditBuilder) -> (r: bool)
    requires
        tree.wf(),
        tree.is_valid(node as int),
        node != 0,
        atoms_bounded(old(edit)@, tree.text@.len() as int),
    ensures
        r == jseb_enabled(tree, node as int),
        !r ==> final(edit)@ == old(edit)@,
        r ==> final(edit)@ == old(edit)@.push(jseb_atom(tree, node as int)),
        r ==> jseb_atom(tree, node as int).start <= tree.lo(node as int) && tree.hi(node as int)
            <= jseb_atom(tree, node as int).end,
        atoms_bounded(final(edit)@, tree.text@.len() as int),
{
    proof {
        assert(node_ok(tree.text@.len() as int, tree.nodes@, node as int));
    }
    let b: usize = tree.nodes[node].parent;
    if tree.nodes[b].kind != SyntaxKind::Block {
        return false;
    }
    if b == 0 {
        return false;
    }
    proof {
        assert(node_ok(tree.text@.len() as int, tree.nodes@, b as int));
    }
    let g: usize = tree.nodes[b].parent;
    if tree.nodes[g].kind != SyntaxKind::BlockExpr {
        return false;
    }
    match single_expr(tree, b) {
        None => false,
        Some(e) => {
            proof {
                assert(node_ok(tree.text@.len() as int, tree.nodes@, g as int));
                assert(node_ok(tree.text@.len() as int, tree.nodes@, e as int));
                let ke = choose|ke: int|
                    #[trigger] single_expr_ok_at(tree, b as int, ke)
                        && tree.nodes@[b as int].children@[ke] == e;
                assert(single_expr_ok_at(tree, b as int, ke));
            }
            let gs: usize = tree.nodes[g].start;
            let ge: usize = tree.nodes[g].end;
            let ins: Vec<u8> = copy_range(&tree.text, tree.nodes[e].start, tree.nodes[e].end);
            edit.replace(TextRange { start: gs, end: ge }, ins);
            proof {
                let ke0 = choose|ke: int|
                    #[trigger] single_expr_ok_at(tree, b as int, ke)
                        && tree.nodes@[b as int].children@[ke] == e;
                let ke1 = choose|ke: int| #[trigger] single_expr_ok_at(tree, b as int, ke);
                lemma_single_expr_unique(tree, b as int, ke0, ke1);
                assert(edit@ == old(edit)@.push(jseb_atom(tree, node as int)));
                // The block expression's range holds the whitespace leaf's.
                let cb = tree.nodes@[b as int].children@;
                assert(cb.contains(node));
                let kn = choose|kn: int| 0 <= kn < cb.len() && cb[kn] == node;
                lemma_child_in_parent(tree, b as int, kn);
                assert(node_ok(tree.text@.len() as int, tree.nodes@, b as int));
                let cg = tree.nodes@[g as int].children@;
                assert(cg.contains(b));
                let kb = choose|kb: int| 0 <= kb < cg.len() && cg[kb] == b;
                lemma_child_in_parent(tree, g as int, kb);
            }
            true
        },
    }
}

/// The first newline inside `[from, to)`, where one exists.
pub open spec fn first_nl_in(t: Seq<u8>, from: int, to: int) -> int {
    choose|q: int|
        from <= q < to && t[q] == NEWLINE && (forall|j: int| from <= j < q ==> #[trigger] t[j]
            != NEWLINE)
}

/// Leaf `node` is a plain whitespace run with exactly one newline: the kind
/// of leaf that sits between two siblings and takes the joining rules.
pub open spec fn plain_ws_nl(tree: &SyntaxTree, node: int) -> bool {
    tree.k_of(node) == SyntaxKind::Whitespace && count_newlines(
        tree.text@,
        tree.lo(node),
        tree.hi(node),
    ) == 1
}

/// The boundary rewrite's one operation: the newline at `offset` and the
/// run of spaces after it, up to the end of leaf `node`, become one space.
pub open spec fn boundary_atom(tree: &SyntaxTree, node: int, offset: int) -> SpecAtom {
    SpecAtom {
        start: offset,
        end: offset + 1 + space_run_spec(tree.text@, offset + 1, tree.hi(node)),
        insert: seq![SPACE],
    }
}

/// The block-inlining rewrite's one operation: the block expression around
/// `node`'s block is replaced by the text of the block's single expression.
pub open spec fn jseb_atom(tree: &SyntaxTree, node: int) -> SpecAtom {
    let b = tree.nodes@[node].parent as int;
    let g = tree.nodes@[b].parent as int;
    let ke = choose|ke: int| #[trigger] single_expr_ok_at(tree, b, ke);
    SpecAtom {
        start: tree.lo(g),
        end: tree.hi(g),
        insert: tree.text@.subrange(
            tree.lo(tree.nodes@[b].children@[ke] as int),
            tree.hi(tree.nodes@[b].children@[ke] as int),
        ),
    }
}

/// The operations the per-newline dispatch records for the newline at
/// `offset` of leaf `node`, by the rules' priority order: boundary rewrite,
/// block inlining, trailing comma, comma before a closing brace, comment
/// splicing, default separator.
pub open spec fn rule_atoms(tree: &SyntaxTree, node: int, offset: int) -> Seq<SpecAtom> {
    if !plain_ws_nl(tree, node) {
        seq![boundary_atom(tree, node, offset)]
    } else if jseb_enabled(tree, node) {
        seq![jseb_atom(tree, node)]
    } else {
        match (tree.sib_prev(node), tree.sib_next(node)) {
            (Some(p), Some(n)) => {
                if tree.k_of(p) == SyntaxKind::Comma && (tree.k_of(n) == SyntaxKind::RParen
                    || tree.k_of(n) == SyntaxKind::RBrack) {
                    seq![
                        SpecAtom {
                            start: tree.lo(p),
                            end: tree.hi(node),
                            insert: Seq::<u8>::empty(),
                        },
                    ]
                } else if tree.k_of(p) == SyntaxKind::Comma && tree.k_of(n)
                    == SyntaxKind::RCurly {
                    seq![SpecAtom { start: tree.lo(p), end: tree.hi(node), insert: seq![SPACE] }]
                } else if tree.k_of(p) == SyntaxKind::Comment && tree.k_of(n)
                    == SyntaxKind::Comment {
                    if has_newline(tree.text@, tree.lo(n), tree.hi(n)) {
                        seq![
                            SpecAtom {
                                start: first_nl_in(tree.text@, tree.lo(n), tree.hi(n)) + 1,
                                end: first_nl_in(tree.text@, tree.lo(n), tree.hi(n)) + 1,
                                insert: seq![SLASH, STAR],
                            },
                            SpecAtom {
                                start: tree.lo(node),
                                end: tree.lo(n) + comment_prefix_len_spec(
                                    tree.text@,
                                    tree.lo(n),
                                    tree.hi(n),
                                ),
                                insert: Seq::<u8>::empty(),
                            },
                        ]
                    } else {
                        seq![
                            SpecAtom {
                                start: tree.lo(node),
                                end: tree.lo(n) + comment_prefix_len_spec(
                                    tree.text@,
                                    tree.lo(n),
                                    tree.hi(n),
                                ),
                                insert: Seq::<u8>::empty(),
                            },
                        ]
                    }
                } else {
                    seq![
                        SpecAtom {
                            start: tree.lo(node),
                            end: tree.hi(node),
                            insert: compute_ws_spec(tree.k_of(p), tree.k_of(n)),
                        },
                    ]
                }
            },
            _ => seq![boundary_atom(tree, node, offset)],
        }
    }
}

/// An offset already lies inside (boundaries included) some operation of
/// `acc`.
pub open spec fn covered(acc: Seq<SpecAtom>, off: int) -> bool {
    exists|k: int| 0 <= k < acc.len() && (#[trigger] acc[k]).start <= off <= acc[k].end
}

/// Folds the per-newline dispatch over positions `[lo, hi)` of leaf
/// `node`'s text: each newline not already covered by an earlier operation
/// appends its rule's operations.
pub open spec fn scan_leaf(
    tree: &SyntaxTree,
    node: int,
    lo: int,
    hi: int,
    acc: Seq<SpecAtom>,
) -> Seq<SpecAtom>
    decreases hi - lo,
{
    if lo >= hi {
        acc
    } else {
        let acc2 = if tree.text@[lo] == NEWLINE && !covered(acc, lo) {
            acc + rule_atoms(tree, node, lo)
        } else {
            acc
        };
        scan_leaf(tree, node, lo + 1, hi, acc2)
    }
}

/// Folds the engine over the subtree of node `i` in source order: every
/// newline of `range` found in a leaf's text is dispatched.
pub open spec fn scan_node(
    tree: &SyntaxTree,
    i: int,
    range: TextRange,
    acc: Seq<SpecAtom>,
) -> Seq<SpecAtom>
    decreases tree.nodes@.len() - i, tree.nodes@[i].children@.len() + 1,
    when 0 <= i < tree.nodes@.len() && tree.wf()
    via scan_node_decreases
{
    if tree.nodes@[i].children@.len() == 0 {
        let lo = clip_lo(tree, i, range);
        let hi = clip_hi(tree, i, range);
        if lo < hi {
            scan_leaf(tree, i, lo, hi, acc)
        } else {
            acc
        }
    } else {
        scan_kids(tree, i, range, 0, acc)
    }
}

#[via_fn]
proof fn scan_node_decreases(tree: &SyntaxTree, i: int, range: TextRange, acc: Seq<SpecAtom>) {
    assert(node_ok(tree.text@.len() as int, tree.nodes@, i));
}

/// Folds the engine over the children of node `i` from position `k` on.
pub open spec fn scan_kids(
    tree: &SyntaxTree,
    i: int,
    range: TextRange,
    k: int,
    acc: Seq<SpecAtom>,
) -> Seq<SpecAtom>
    decreases tree.nodes@.len() - i, tree.nodes@[i].children@.len() - k,
    when 0 <= i < tree.nodes@.len() && 0 <= k && tree.wf()
    via scan_kids_decreases
{
    let c = tree.nodes@[i].children@;
    if k >= c.len() {
        acc
    } else {
        scan_kids(tree, i, range, k + 1, scan_node(tree, c[k] as int, range, acc))
    }
}

#[via_fn]
proof fn scan_kids_decreases(
    tree: &SyntaxTree,
    i: int,
    range: TextRange,
    k: int,
    acc: Seq<SpecAtom>,
) {
    assert(node_ok(tree.text@.len() as int, tree.nodes@, i));
    if k < tree.nodes@[i].children@.len() {
        assert(child_ok(tree.text@.len() as int, tree.nodes@, i, k));
    }
}

/// Rewrites the newline at `offset` inside leaf `node`.  A leaf that is not
/// a plain single-newline whitespace run, or a whitespace run without both
/// siblings, is a boundary: the newline and the following spaces become one
/// space.  Otherwise the rules apply in priority order: trailing comma,
/// comma before a closing brace, comment splicing, single-expression block
/// inlining, and the computed default separator.  One or two operations are
/// recorded, all within the text.
fn remove_newline(tree: &SyntaxTree, node: usize, offset: usize, edit: &mut EditBuilder)
    requires
        tree.wf(),
        tree.leaf_containing(node as int, offset as int),
        tree.text@[offset as int] == NEWLINE,
        atoms_bounded(old(edit)@, tree.text@.len() as int),
    ensures
        atoms_bounded(final(edit)@, tree.text@.len() as int),
        old(edit)@.len() < final(edit)@.len(),
        final(edit)@.len() <= old(edit)@.len() + 2,
        old(edit)@.len() == 0 ==> atoms_disjoint(final(edit)@),
        final(edit)@ == old(edit)@ + rule_atoms(tree, node as int, offset as int),
        exists|k: int|
            old(edit)@.len() <= k < final(edit)@.len() && (#[trigger] final(edit)@[k]).start
                <= offset as int <= final(edit)@[k].end,
{
    proof {
        assert(node_ok(tree.text@.len() as int, tree.nodes@, node as int));
        assert(node != 0);
    }
    let ghost base = old(edit)@.len() as int;
    let ns: usize = tree.nodes[node].start;
    let ne: usize = tree.nodes[node].end;
    let is_ws: bool = tree.nodes[node].kind == SyntaxKind::Whitespace;
    let nls: usize = newline_count(&tree.text, ns, ne);
    if !is_ws || nls != 1 {
        boundary_join(tree, offset, ne, edit);
        proof {
            assert(!plain_ws_nl(tree, node as int));
            assert(edit@ =~= old(edit)@ + rule_atoms(tree, node as int, offset as int));
            assert(edit@[base].start <= offset as int <= edit@[base].end);
        }
        return;
    }
    if join_single_expr_block(tree, node, edit) {
        proof {
            assert(plain_ws_nl(tree, node as int));
            assert(edit@ =~= old(edit)@ + rule_atoms(tree, node as int, offset as int));
            assert(edit@[base].start <= offset as int <= edit@[base].end);
        }
        return;
    }
    let prev_o: Option<usize> = tree.prev_sibling(node);
    let next_o: Option<usize> = tree.next_sibling(node);
    match (prev_o, next_o) {
        (Some(prev), Some(next)) => {
            proof {
                assert(node_ok(tree.text@.len() as int, tree.nodes@, prev as int));
                assert(node_ok(tree.text@.len() as int, tree.nodes@, next as int));
            }
            let pk: SyntaxKind = tree.nodes[prev].kind;
            let nk: SyntaxKind = tree.nodes[next].kind;
            if is_trailing_comma(pk, nk) {
                edit.delete(TextRange { start: tree.nodes[prev].start, end: ne });
                proof {
                    assert(edit@ =~= old(edit)@ + rule_atoms(tree, node as int, offset as int));
                    assert(edit@[base].start <= offset as int <= edit@[base].end);
                }
            } else if pk == SyntaxKind::Comma && nk == SyntaxKind::RCurly {
                edit.replace(TextRange { start: tree.nodes[prev].start, end: ne }, one_space());
                proof {
                    assert(edit@ =~= old(edit)@ + rule_atoms(tree, node as int, offset as int));
                    assert(edit@[base].start <= offset as int <= edit@[base].end);
                }
            } else if pk == SyntaxKind::Comment && nk == SyntaxKind::Comment {
                let nxs: usize = tree.nodes[next].start;
                let nxe: usize = tree.nodes[next].end;
                let pfx: usize = comment_prefix_len(&tree.text, nxs, nxe);
                let inner: Option<usize> = find_newline_from(&tree.text, nxs);
                if let Some(p) = inner {
                    if p < nxe {
                        proof {
                            assert(has_newline(tree.text@, nxs as int, nxe as int)) by {
                                assert(tree.text@[p as int] == NEWLINE);
                            };
                            let q0 = first_nl_in(tree.text@, nxs as int, nxe as int);
                            assert(nxs as int <= p < nxe as int && tree.text@[p as int] == NEWLINE
                                && (forall|j: int|
                                nxs as int <= j < p ==> #[trigger] tree.text@[j] != NEWLINE));
                            assert(q0 == p) by {
                                if q0 < p {
                                    assert(tree.text@[q0] != NEWLINE);
                                }
                                if p < q0 {
                                    assert(tree.text@[p as int] != NEWLINE);
                                }
                            };
                            // The marker bytes are slashes, a star or a bang,
                            // so the comment's first newline lies after them.
                            assert forall|j: int|
                                nxs as int <= j < nxs as int + pfx implies tree.text@[j]
                                != NEWLINE by {
                                assert(pfx == comment_prefix_len_spec(
                                    tree.text@,
                                    nxs as int,
                                    nxe as int,
                                ));
                            };
                            assert(nxs as int + pfx <= p as int);
                        }
                        edit.insert(p + 1, slash_star());
                        edit.delete(TextRange { start: ns, end: nxs + pfx });
                        proof {
                            assert(edit@ =~= old(edit)@ + rule_atoms(
                                tree,
                                node as int,
                                offset as int,
                            ));
                            assert(edit@[base + 1].start <= offset as int <= edit@[base + 1].end);
                        }
                        return;
                    }
                }
                proof {
                    if has_newline(tree.text@, nxs as int, nxe as int) {
                        let w = choose|w: int|
                            nxs as int <= w < nxe as int && 0 <= w < tree.text@.len()
                                && tree.text@[w] == NEWLINE;
                        assert(tree.text@[w] != NEWLINE);
                        assert(false);
                    }
                }
                edit.delete(TextRange { start: ns, end: nxs + pfx });
                proof {
                    assert(edit@ =~= old(edit)@ + rule_atoms(tree, node as int, offset as int));
                    assert(edit@[base].start <= offset as int <= edit@[base].end);
                }
            } else {
                edit.replace(TextRange { start: ns, end: ne }, compute_ws(pk, nk));
                proof {
                    assert(edit@ =~= old(edit)@ + rule_atoms(tree, node as int, offset as int));
                    assert(edit@[base].start <= offset as int <= edit@[base].end);
                }
            }
        },
        _ => {
            boundary_join(tree, offset, ne, edit);
            proof {
                assert(edit@ =~= old(edit)@ + rule_atoms(tree, node as int, offset as int));
                assert(edit@[base].start <= offset as int <= edit@[base].end);
            }
        },
    }
}

/// The boundary rewrite: the newline at `offset` plus the run of spaces
/// after it, up to `limit`, become a single space.
fn boundary_join(tree: &SyntaxTree, offset: usize, limit: usize, edit: &mut EditBuilder)
    requires
        tree.wf(),
        offset < limit <= tree.text@.len(),
        atoms_bounded(old(edit)@, tree.text@.len() as int),
    ensures
        atoms_bounded(final(edit)@, tree.text@.len() as int),
        final(edit)@ == old(edit)@.push(
            SpecAtom {
                start: offset as int,
                end: offset as int + 1 + space_run_spec(
                    tree.text@,
                    offset as int + 1,
                    limit as int,
                ),
                insert: seq![SPACE],
            },
        ),
{
    let spaces: usize = space_run(&tree.text, offset + 1, limit);
    edit.replace(TextRange { start: offset, end: offset + 1 + spaces }, one_space());
}

/// The part of `range` that lies inside node `i`, as clipped bounds.
pub open spec fn clip_lo(tree: &SyntaxTree, i: int, range: TextRange) -> int {
    if range.start as int >= tree.lo(i) {
        range.start as int
    } else {
        tree.lo(i)
    }
}

/// The end of the part of `range` that lies inside node `i`.
pub open spec fn clip_hi(tree: &SyntaxTree, i: int, range: TextRange) -> int {
    if range.end as int <= tree.hi(i) {
        range.end as int
    } else {
        tree.hi(i)
    }
}

/// Walks the subtree of node `i` in source order, and rewrites every newline
/// of `range` found in a leaf's text, skipping any that an earlier rule
/// already touched.  The recorded operations grow exactly when the part of
/// `range` inside node `i` holds a newline.
fn process_node(tree: &SyntaxTree, i: usize, range: TextRange, edit: &mut EditBuilder)
    requires
        tree.wf(),
        tree.is_valid(i as int),
        range.is_wf(),
        range.end <= tree.text@.len(),
        atoms_bounded(old(edit)@, tree.text@.len() as int),
    ensures
        atoms_bounded(final(edit)@, tree.text@.len() as int),
        old(edit)@.len() <= final(edit)@.len(),
        !has_newline(tree.text@, clip_lo(tree, i as int, range), clip_hi(tree, i as int, range))
            ==> final(edit)@ == old(edit)@,
        has_newline(tree.text@, clip_lo(tree, i as int, range), clip_hi(tree, i as int, range))
            ==> final(edit)@.len() > 0,
        old(edit)@.len() == 0 && range.start as int + 1 == range.end as int ==> atoms_disjoint(
            final(edit)@,
        ),
        final(edit)@ == scan_node(tree, i as int, range, old(edit)@),
    decreases tree.nodes@.len() - i,
{
    proof {
        assert(node_ok(tree.text@.len() as int, tree.nodes@, i as int));
    }
    let cnt: usize = tree.nodes[i].children.len();
    if cnt == 0 {
        // A leaf: scan its intersection with the range for newlines.
        let node_range = TextRange { start: tree.nodes[i].start, end: tree.nodes[i].end };
        let sect: Option<TextRange> = intersect(range, node_range);
        let (lo, hi): (usize, usize) = match sect {
            Some(s) => (s.start, s.end),
            None => {
                proof {
                    assert(!has_newline(
                        tree.text@,
                        clip_lo(tree, i as int, range),
                        clip_hi(tree, i as int, range),
                    ));
                    assert(scan_node(tree, i as int, range, old(edit)@) == old(edit)@);
                }
                return ;
            },
        };
        let ghost lo0 = lo as int;
        let ghost hi0 = hi as int;
        assert(lo0 == clip_lo(tree, i as int, range));
        assert(hi0 == clip_hi(tree, i as int, range));
        if lo == hi {
            proof {
                assert(scan_node(tree, i as int, range, old(edit)@) == old(edit)@);
            }
            return ;
        }
        proof {
            assert(scan_leaf(tree, i as int, lo0, hi0, old(edit)@) == scan_node(
                tree,
                i as int,
                range,
                old(edit)@,
            ));
        }
        let mut idx: usize = lo;
        while idx < hi
            invariant
                tree.wf(),
                tree.is_valid(i as int),
                tree.is_leaf(i as int),
                lo <= idx,
                idx <= hi,
                hi <= tree.text@.len(),
                lo0 == lo as int,
                hi0 == hi as int,
                tree.lo(i as int) <= lo as int,
                hi as int <= tree.hi(i as int),
                atoms_bounded(edit@, tree.text@.len() as int),
                old(edit)@.len() <= edit@.len(),
                !has_newline(tree.text@, lo0, idx as int) ==> edit@ == old(edit)@,
                has_newline(tree.text@, lo0, idx as int) ==> edit@.len() > 0,
                old(edit)@.len() == 0 && hi0 <= lo0 + 1 ==> atoms_disjoint(edit@),
                scan_leaf(tree, i as int, idx as int, hi0, edit@) == scan_node(
                    tree,
                    i as int,
                    range,
                    old(edit)@,
                ),
            decreases hi - idx,
        {
            let ghost prev_acc = edit@;
            if tree.text[idx] == NEWLINE {
                proof {
                    if old(edit)@.len() == 0 && hi0 <= lo0 + 1 {
                        assert(idx == lo);
                        assert(!has_newline(tree.text@, lo0, idx as int));
                        assert(edit@ == old(edit)@);
                    }
                }
                let hit: bool = edit.invalidates_offset(idx);
                proof {
                    assert(hit == covered(prev_acc, idx as int)) by {
                        if hit {
                            let k = choose|k: int|
                                0 <= k < prev_acc.len() && #[trigger] prev_acc[k].start <= idx
                                    <= prev_acc[k].end;
                            assert((prev_acc[k]).start <= idx as int <= prev_acc[k].end);
                        }
                        if covered(prev_acc, idx as int) {
                            let k = choose|k: int|
                                0 <= k < prev_acc.len() && (#[trigger] prev_acc[k]).start
                                    <= idx as int <= prev_acc[k].end;
                            assert(prev_acc[k].start <= idx <= prev_acc[k].end);
                        }
                    };
                }
                if !hit {
                    remove_newline(tree, i, idx, edit);
                } else {
                    proof {
                        assert(edit@.len() > 0);
                    }
                }
                proof {
                    assert(has_newline(tree.text@, lo0, idx as int + 1)) by {
                        assert(tree.text@[idx as int] == NEWLINE);
                    };
                }
            }
            proof {
                let acc2 = if tree.text@[idx as int] == NEWLINE && !covered(
                    prev_acc,
                    idx as int,
                ) {
                    prev_acc + rule_atoms(tree, i as int, idx as int)
                } else {
                    prev_acc
                };
                assert(edit@ == acc2);
                assert(scan_leaf(tree, i as int, idx as int, hi0, prev_acc) == scan_leaf(
                    tree,
                    i as int,
                    idx as int + 1,
                    hi0,
                    acc2,
                ));
            }
            idx = idx + 1;
        }
        proof {
            if has_newline(tree.text@, lo0, hi0) {
                assert(edit@.len() > 0);
            }
            assert(scan_leaf(tree, i as int, hi0, hi0, edit@) == edit@);
        }
    } else {
        let ghost tl = tree.text@.len() as int;
        let mut k: usize = 0;
        proof {
            assert(scan_kids(tree, i as int, range, 0, old(edit)@) == scan_node(
                tree,
                i as int,
                range,
                old(edit)@,
            ));
        }
        while k < cnt
            invariant
                tree.wf(),
                tree.is_valid(i as int),
                !tree.is_leaf(i as int),
                range.is_wf(),
                range.end <= tree.text@.len(),
                cnt == tree.nodes@[i as int].children@.len(),
                k <= cnt,
                atoms_bounded(edit@, tree.text@.len() as int),
                old(edit)@.len() <= edit@.len(),
                !has_newline(
                    tree.text@,
                    clip_lo(tree, i as int, range),
                    covered_hi(tree, i as int, range, k as int),
                ) ==> edit@ == old(edit)@,
                has_newline(
                    tree.text@,
                    clip_lo(tree, i as int, range),
                    covered_hi(tree, i as int, range, k as int),
                ) ==> edit@.len() > 0,
                old(edit)@.len() == 0 && range.start as int + 1 == range.end as int
                    ==> atoms_disjoint(edit@),
                scan_kids(tree, i as int, range, k as int, edit@) == scan_node(
                    tree,
                    i as int,
                    range,
                    old(edit)@,
                ),
            decreases cnt - k,
        {
            proof {
                assert(node_ok(tree.text@.len() as int, tree.nodes@, i as int));
                assert(child_ok(tree.text@.len() as int, tree.nodes@, i as int, k as int));
                lemma_child_in_parent(tree, i as int, k as int);
            }
            let ck: usize = tree.nodes[i].children[k];
            let ghost pre = edit@;
            process_node(tree, ck, range, edit);
            proof {
                assert(edit@ == scan_node(tree, ck as int, range, pre));
                assert(scan_kids(tree, i as int, range, k as int, pre) == scan_kids(
                    tree,
                    i as int,
                    range,
                    k as int + 1,
                    edit@,
                ));
                let c = tree.nodes@[i as int].children@;
                let a = clip_lo(tree, i as int, range);
                let b0 = covered_hi(tree, i as int, range, k as int);
                let b1 = covered_hi(tree, i as int, range, k as int + 1);
                let ca = clip_lo(tree, ck as int, range);
                let cb = clip_hi(tree, ck as int, range);
                if k as int + 1 < cnt as int {
                    assert(child_ok(tree.text@.len() as int, tree.nodes@, i as int, k as int));
                    assert(tree.lo(c[k as int + 1] as int) == tree.hi(ck as int));
                }
                if !has_newline(tree.text@, a, b1) {
                    assert(!has_newline(tree.text@, a, b0));
                    assert(!has_newline(tree.text@, ca, cb)) by {
                        if has_newline(tree.text@, ca, cb) {
                            let w = choose|w: int|
                                ca <= w < cb && 0 <= w < tree.text@.len() && tree.text@[w]
                                    == NEWLINE;
                            assert(a <= w < b1);
                        }
                    };
                }
                if has_newline(tree.text@, a, b1) {
                    let w = choose|w: int|
                        a <= w < b1 && 0 <= w < tree.text@.len() && tree.text@[w] == NEWLINE;
                    if w < b0 {
                        assert(has_newline(tree.text@, a, b0));
                    } else {
                        assert(tree.lo(ck as int) <= w);
                        assert(has_newline(tree.text@, ca, cb));
                    }
                }
                if old(edit)@.len() == 0 && range.start as int + 1 == range.end as int {
                    if pre.len() == 0 {
                        assert(atoms_disjoint(edit@));
                    } else {
                        // An earlier child already rewrote the one newline of
                        // the range, so this child's portion was empty.
                        assert(has_newline(tree.text@, a, b0));
                        let w0 = choose|w0: int|
                            a <= w0 < b0 && 0 <= w0 < tree.text@.len() && tree.text@[w0]
                                == NEWLINE;
                        assert(w0 == range.start as int);
                        assert(w0 < tree.lo(ck as int));
                        assert(ca >= range.start as int + 1);
                        assert(cb <= range.end as int);
                        assert(!has_newline(tree.text@, ca, cb));
                        assert(edit@ == pre);
                        assert(atoms_disjoint(edit@));
                    }
                }
            }
            k = k + 1;
        }
        proof {
            assert(covered_hi(tree, i as int, range, cnt as int) == clip_hi(
                tree,
                i as int,
                range,
            ));
            assert(scan_kids(tree, i as int, range, cnt as int, edit@) == edit@);
        }
    }
}

/// How far `range` inside node `i` is covered once the first `k` children
/// have been processed.
pub open spec fn covered_hi(tree: &SyntaxTree, i: int, range: TextRange, k: int) -> int {
    let c = tree.nodes@[i].children@;
    if k >= c.len() {
        clip_hi(tree, i, range)
    } else {
        let b = tree.lo(c[k] as int);
        if range.end as int <= b {
            range.end as int
        } else {
            b
        }
    }
}

/// The newline an empty selection targets: the first one at or after the
/// cursor, if any.
pub open spec fn cursor_target(t: Seq<u8>, from: int) -> Option<int> {
    if has_newline(t, from, t.len() as int) {
        Some(first_nl_in(t, from, t.len() as int))
    } else {
        None
    }
}

/// Joins the lines that the selection `range` touches.  An empty range
/// targets the first newline at or after it.  The result carries no cursor;
/// its operations are exactly those of the engine's scan over the targeted
/// range — ordered by start, within the text, and empty exactly when that
/// range holds no newline.  For a cursor call the operations are also
/// pairwise disjoint; a selection spanning several newlines can produce
/// operations whose ranges overlap where a rule rewrites a span that an
/// earlier rule already touched.
pub fn join_lines(tree: &SyntaxTree, range: TextRange) -> (r: LocalEdit)
    requires
        tree.wf(),
        range.is_wf(),
        range.end <= tree.text@.len(),
    ensures
        r.cursor_position is None,
        atoms_bounded(r.edit@, tree.text@.len() as int),
        atoms_sorted(r.edit@),
        range.start < range.end ==> r.edit@.to_multiset() == scan_node(
            tree,
            0,
            range,
            Seq::<SpecAtom>::empty(),
        ).to_multiset(),
        range.start == range.end ==> (match cursor_target(tree.text@, range.start as int) {
            None => r.edit@ == Seq::<SpecAtom>::empty(),
            Some(p) => r.edit@.to_multiset() == scan_node(
                tree,
                0,
                TextRange { start: p as usize, end: (p + 1) as usize },
                Seq::<SpecAtom>::empty(),
            ).to_multiset(),
        }),
        range.start < range.end ==> ((r.edit@.len() == 0) <==> !has_newline(
            tree.text@,
            range.start as int,
            range.end as int,
        )),
        range.start == range.end ==> ((r.edit@.len() == 0) <==> !has_newline(
            tree.text@,
            range.start as int,
            tree.text@.len() as int,
        )),
        range.start == range.end ==> atoms_disjoint(r.edit@),
{
    let norm: TextRange = if range.is_empty() {
        match find_newline_from(&tree.text, range.start) {
            None => {
                let b = EditBuilder::new();
                let e = b.finish();
                proof {
                    assert(!has_newline(tree.text@, range.start as int, tree.text@.len() as int));
                    assert(e@ =~= Seq::<SpecAtom>::empty());
                }
                return LocalEdit { edit: e, cursor_position: None };
            },
            Some(p) => TextRange { start: p, end: p + 1 },
        }
    } else {
        range
    };
    proof {
        if range.start == range.end {
            assert(has_newline(tree.text@, range.start as int, tree.text@.len() as int)) by {
                assert(tree.text@[norm.start as int] == NEWLINE);
            };
            assert(has_newline(tree.text@, norm.start as int, norm.end as int)) by {
                assert(tree.text@[norm.start as int] == NEWLINE);
            };
            assert(range.start as int <= norm.start as int);
            assert((norm.start as int) < tree.text@.len());
            assert(tree.text@[norm.start as int] == NEWLINE);
            assert(forall|j: int|
                range.start as int <= j < norm.start as int ==> #[trigger] tree.text@[j]
                    != NEWLINE);
            let q0 = first_nl_in(tree.text@, range.start as int, tree.text@.len() as int);
            assert(q0 == norm.start as int) by {
                if q0 < norm.start as int {
                    assert(tree.text@[q0] != NEWLINE);
                }
                if (norm.start as int) < q0 {
                    assert(tree.text@[norm.start as int] != NEWLINE);
                }
            };
            assert(TextRange { start: q0 as usize, end: (q0 + 1) as usize } == norm);
        }
    }
    // The walk starts at the root: a leaf's part outside the range is
    // skipped, so only the subtree of the covering node contributes.
    let mut edit = EditBuilder::new();
    process_node(tree, 0, norm, &mut edit);
    proof {
        assert(clip_lo(tree, 0, norm) == norm.start as int);
        assert(clip_hi(tree, 0, norm) == norm.end as int);
    }
    let e = edit.finish();
    proof {
        assert forall|k: int| 0 <= k < e@.len() implies atom_wf(
            #[trigger] e@[k],
            tree.text@.len() as int,
        ) by {
            assert(edit@.contains(e@[k]));
            let m = choose|m: int| 0 <= m < edit@.len() && edit@[m] == e@[k];
            assert(atom_wf(edit@[m], tree.text@.len() as int));
        };
    }
    LocalEdit { edit: e, cursor_position: None }
}

/// Where the left-biased leaf lookup at `offset` probes the text.
pub open spec fn left_q(offset: int) -> int {
    SyntaxTree::left_query(offset)
}

/// Pressing Enter at `offset` continues a comment: the left-biased leaf at
/// the offset is a single-line comment, the offset lies strictly after the
/// comment marker, and the comment has an indentation context (it starts the
/// text, or whitespace precedes it).
pub open spec fn on_enter_applies_at(tree: &SyntaxTree, offset: int, l: int) -> bool {
    &&& offset <= tree.text@.len()
    &&& tree.leaf_containing(l, left_q(offset))
    &&& tree.k_of(l) == SyntaxKind::Comment
    &&& is_line_comment_text(tree.text@, tree.lo(l), tree.hi(l))
    &&& offset >= tree.lo(l) + comment_prefix_len_spec(tree.text@, tree.lo(l), tree.hi(l)) + 1
    &&& (tree.lo(l) == 0 || exists|w: int|
        #[trigger] tree.leaf_containing(w, tree.lo(l) - 1) && tree.k_of(w)
            == SyntaxKind::Whitespace)
}

/// Where the indentation before position `we` begins: just after the last
/// newline of `[ws, we)`, or at `ws` when that run holds no newline.
pub open spec fn indent_start(t: Seq<u8>, ws: int, we: int) -> int {
    if has_newline(t, ws, we) {
        1 + choose|p: int|
            ws <= p < we && t[p] == NEWLINE && (forall|j: int| p < j < we ==> #[trigger] t[j]
                != NEWLINE)
    } else {
        ws
    }
}

/// The indentation of comment leaf `l`: the tail of the preceding
/// whitespace leaf after its last newline; empty at the start of the text.
pub open spec fn indent_seq(tree: &SyntaxTree, l: int) -> Seq<u8> {
    if tree.lo(l) == 0 {
        Seq::<u8>::empty()
    } else {
        let w = choose|w: int|
            #[trigger] tree.leaf_containing(w, tree.lo(l) - 1) && tree.k_of(w)
                == SyntaxKind::Whitespace;
        tree.text@.subrange(indent_start(tree.text@, tree.lo(w), tree.hi(w)), tree.hi(w))
    }
}

/// What Enter inserts at the offset: a newline, the indentation, the
/// comment marker, and one space.
pub open spec fn on_enter_insertion(tree: &SyntaxTree, l: int) -> Seq<u8> {
    seq![NEWLINE] + indent_seq(tree, l) + tree.text@.subrange(
        tree.lo(l),
        tree.lo(l) + comment_prefix_len_spec(tree.text@, tree.lo(l), tree.hi(l)),
    ) + seq![SPACE]
}

/// The indentation slice for the comment leaf `node`: empty at the start of
/// the text; otherwise the tail of the preceding whitespace leaf after its
/// last newline, or nothing when that leaf is no whitespace.
fn node_indent(tree: &SyntaxTree, node: usize) -> (r: Option<TextRange>)
    requires
        tree.wf(),
        tree.is_valid(node as int),
    ensures
        match r {
            Some(ind) => {
                &&& ind.is_wf()
                &&& ind.end <= tree.text@.len()
                &&& (tree.lo(node as int) == 0 ==> ind.start == 0 && ind.end == 0)
                &&& (tree.lo(node as int) != 0 ==> exists|w: int|
                    #[trigger] tree.leaf_containing(w, tree.lo(node as int) - 1) && tree.k_of(w)
                        == SyntaxKind::Whitespace && ind.start as int == indent_start(
                        tree.text@,
                        tree.lo(w),
                        tree.hi(w),
                    ) && ind.end as int == tree.hi(w))
            },
            None => tree.lo(node as int) != 0 && forall|w: int|
                #[trigger] tree.leaf_containing(w, tree.lo(node as int) - 1) ==> tree.k_of(w)
                    != SyntaxKind::Whitespace,
        },
{
    proof {
        assert(node_ok(tree.text@.len() as int, tree.nodes@, node as int));
    }
    let ns: usize = tree.nodes[node].start;
    if ns == 0 {
        return Some(TextRange { start: 0, end: 0 });
    }
    let w: usize = tree.leaf_at(ns - 1);
    if tree.nodes[w].kind != SyntaxKind::Whitespace {
        proof {
            assert forall|w2: int|
                #[trigger] tree.leaf_containing(w2, tree.lo(node as int) - 1) implies tree.k_of(w2)
                != SyntaxKind::Whitespace by {
                lemma_leaf_unique(tree, w2, w as int, ns as int - 1);
            };
        }
        return None;
    }
    proof {
        assert(node_ok(tree.text@.len() as int, tree.nodes@, w as int));
    }
    let ws: usize = tree.nodes[w].start;
    let we: usize = tree.nodes[w].end;
    let ind: TextRange = match last_newline_in(&tree.text, ws, we) {
        Some(p) => TextRange { start: p + 1, end: we },
        None => TextRange { start: ws, end: we },
    };
    proof {
        if has_newline(tree.text@, ws as int, we as int) {
            let p0 = choose|p: int|
                ws as int <= p < we as int && tree.text@[p] == NEWLINE && (forall|j: int|
                    p < j < we as int ==> #[trigger] tree.text@[j] != NEWLINE);
            assert(ind.start as int == p0 + 1) by {
                assert(tree.text@[p0] == NEWLINE);
            };
        }
        assert(ind.start as int == indent_start(tree.text@, ws as int, we as int));
    }
    Some(ind)
}

/// Continues a single-line comment when Enter is pressed at `offset`: the
/// result inserts a newline, the same indentation, the comment marker and a
/// space, and puts the cursor after the insertion.  `None` exactly when no
/// comment continuation applies at the offset.  The text-length bound keeps
/// the returned cursor offset within the machine's address range.
pub fn on_enter(tree: &SyntaxTree, offset: usize) -> (r: Option<LocalEdit>)
    requires
        tree.wf(),
        tree.text@.len() < 0x4000_0000,
    ensures
        match r {
            Some(le) => {
                &&& exists|l: int| #[trigger] on_enter_applies_at(tree, offset as int, l)
                &&& ({
                    let l = choose|l: int| #[trigger] on_enter_applies_at(tree, offset as int, l);
                    &&& le.edit@ == seq![
                        SpecAtom {
                            start: offset as int,
                            end: offset as int,
                            insert: on_enter_insertion(tree, l),
                        },
                    ]
                    &&& match le.cursor_position {
                        Some(c) => c == offset + on_enter_insertion(tree, l).len(),
                        None => false,
                    }
                    &&& atoms_disjoint(le.edit@)
                })
            },
            None => forall|l: int| !on_enter_applies_at(tree, offset as int, l),
        },
{
    let lopt: Option<usize> = tree.leaf_left_biased(offset);
    let l: usize = match lopt {
        None => {
            return None;
        },
        Some(l) => l,
    };
    let ghost q = left_q(offset as int);
    if tree.nodes[l].kind != SyntaxKind::Comment {
        proof {
            assert forall|l2: int| !on_enter_applies_at(tree, offset as int, l2) by {
                if on_enter_applies_at(tree, offset as int, l2) {
                    lemma_leaf_unique(tree, l2, l as int, q);
                }
            };
        }
        return None;
    }
    proof {
        assert(node_ok(tree.text@.len() as int, tree.nodes@, l as int));
    }
    let ls: usize = tree.nodes[l].start;
    let le_: usize = tree.nodes[l].end;
    if !(le_ - ls >= 2 && tree.text[ls] == SLASH && tree.text[ls + 1] == SLASH) {
        proof {
            assert forall|l2: int| !on_enter_applies_at(tree, offset as int, l2) by {
                if on_enter_applies_at(tree, offset as int, l2) {
                    lemma_leaf_unique(tree, l2, l as int, q);
                }
            };
        }
        return None;
    }
    let pfx: usize = comment_prefix_len(&tree.text, ls, le_);
    if offset < ls + pfx + 1 {
        proof {
            assert forall|l2: int| !on_enter_applies_at(tree, offset as int, l2) by {
                if on_enter_applies_at(tree, offset as int, l2) {
                    lemma_leaf_unique(tree, l2, l as int, q);
                }
            };
        }
        return None;
    }
    let ind: TextRange = match node_indent(tree, l) {
        None => {
            proof {
                assert forall|l2: int| !on_enter_applies_at(tree, offset as int, l2) by {
                    if on_enter_applies_at(tree, offset as int, l2) {
                        lemma_leaf_unique(tree, l2, l as int, q);
                        let w = choose|w: int|
                            #[trigger] tree.leaf_containing(w, tree.lo(l as int) - 1) && tree.k_of(
                                w,
                            ) == SyntaxKind::Whitespace;
                        assert(tree.k_of(w) != SyntaxKind::Whitespace);
                    }
                };
            }
            return None;
        },
        Some(ind) => ind,
    };
    let mut ins: Vec<u8> = Vec::new();
    ins.push(NEWLINE);
    append_range(&mut ins, &tree.text, ind.start, ind.end);
    append_range(&mut ins, &tree.text, ls, ls + pfx);
    ins.push(SPACE);
    proof {
        assert(on_enter_applies_at(tree, offset as int, l as int));
        let lc = choose|l2: int| #[trigger] on_enter_applies_at(tree, offset as int, l2);
        lemma_leaf_unique(tree, lc, l as int, q);
        assert(lc == l as int);
        if tree.lo(l as int) != 0 {
            let w0 = choose|w: int|
                #[trigger] tree.leaf_containing(w, tree.lo(l as int) - 1) && tree.k_of(w)
                    == SyntaxKind::Whitespace;
            let w1 = choose|w: int|
                #[trigger] tree.leaf_containing(w, tree.lo(l as int) - 1) && tree.k_of(w)
                    == SyntaxKind::Whitespace && ind.start as int == indent_start(
                    tree.text@,
                    tree.lo(w),
                    tree.hi(w),
                ) && ind.end as int == tree.hi(w);
            lemma_leaf_unique(tree, w0, w1, tree.lo(l as int) - 1);
            assert(indent_seq(tree, l as int) == tree.text@.subrange(
                ind.start as int,
                ind.end as int,
            ));
        } else {
            assert(ind.start == 0 && ind.end == 0);
            assert(indent_seq(tree, l as int) =~= tree.text@.subrange(
                ind.start as int,
                ind.end as int,
            ));
        }
        assert(ins@ =~= on_enter_insertion(tree, l as int));
    }
    let ins_len: usize = ins.len();
    let cursor: usize = offset + ins_len;
    let mut b = EditBuilder::new();
    b.insert(offset, ins);
    let e = b.finish();
    proof {
        assert(atoms_sorted(
            Seq::<SpecAtom>::empty().push(
                SpecAtom {
                    start: offset as int,
                    end: offset as int,
                    insert: on_enter_insertion(tree, l as int),
                },
            ),
        ));
        assert(e@ =~= seq![
            SpecAtom {
                start: offset as int,
                end: offset as int,
                insert: on_enter_insertion(tree, l as int),
            },
        ]);
    }
    Some(LocalEdit { edit: e, cursor_position: Some(cursor) })
}

/// The binding statement that the auto-terminator considers at `offset`:
/// the nearest binding-statement ancestor of the left-biased leaf there,
/// or, at a boundary between two leaves, of the right one.
pub open spec fn eq_candidate(tree: &SyntaxTree, offset: int) -> Option<int> {
    if offset > tree.text@.len() {
        None
    } else {
        let l1 = choose|l: int| #[trigger] tree.leaf_containing(l, left_q(offset));
        if tree.nearest_let(l1) is Some {
            tree.nearest_let(l1)
        } else if 0 < offset < tree.text@.len() && tree.hi(l1) == offset {
            let l2 = choose|l: int| #[trigger] tree.leaf_containing(l, offset);
            tree.nearest_let(l2)
        } else {
            None
        }
    }
}

/// The statement `st` takes a terminator at `offset`: it has none yet, it
/// has an initializer, and the offset sits at or before the initializer's
/// start with no newline in between.
pub open spec fn eq_applies(tree: &SyntaxTree, offset: int, st: int) -> bool {
    match tree.let_initializer(st) {
        Some(e) => {
            &&& !tree.let_has_semi(st)
            &&& offset <= tree.lo(e)
            &&& !has_newline(tree.text@, offset, tree.lo(e))
        },
        None => false,
    }
}

/// Auto-terminates a binding statement whose initializer was just completed
/// at `offset`: inserts the terminator at the statement's end, with no
/// cursor change.  `None` exactly when no candidate statement takes one.
pub fn on_eq_typed(tree: &SyntaxTree, offset: usize) -> (r: Option<LocalEdit>)
    requires
        tree.wf(),
    ensures
        match eq_candidate(tree, offset as int) {
            Some(st) => match r {
                Some(le) => {
                    &&& eq_applies(tree, offset as int, st)
                    &&& le.edit@ == seq![
                        SpecAtom {
                            start: tree.hi(st),
                            end: tree.hi(st),
                            insert: seq![SEMICOLON],
                        },
                    ]
                    &&& le.cursor_position is None
                    &&& atoms_disjoint(le.edit@)
                },
                None => !eq_applies(tree, offset as int, st),
            },
            None => r is None,
        },
{
    let lopt: Option<usize> = tree.leaf_left_biased(offset);
    let l1: usize = match lopt {
        None => {
            return None;
        },
        Some(l) => l,
    };
    proof {
        let lc = choose|l: int| #[trigger] tree.leaf_containing(l, left_q(offset as int));
        lemma_leaf_unique(tree, lc, l1 as int, left_q(offset as int));
    }
    let st_first: Option<usize> = tree.find_let_ancestor(l1);
    let st: usize = match st_first {
        Some(st) => st,
        None => {
            if 0 < offset && offset < tree.text.len() && tree.nodes[l1].end == offset {
                let l2: usize = tree.leaf_at(offset);
                proof {
                    let lc2 = choose|l: int| #[trigger] tree.leaf_containing(l, offset as int);
                    lemma_leaf_unique(tree, lc2, l2 as int, offset as int);
                }
                match tree.find_let_ancestor(l2) {
                    Some(st) => st,
                    None => {
                        return None;
                    },
                }
            } else {
                return None;
            }
        },
    };
    proof {
        assert(eq_candidate(tree, offset as int) == Some(st as int));
    }
    // No terminator may be present yet.
    let ccnt: usize = tree.nodes[st].children.len();
    proof {
        assert(node_ok(tree.text@.len() as int, tree.nodes@, st as int));
        if ccnt > 0 {
            assert(child_ok(tree.text@.len() as int, tree.nodes@, st as int, ccnt as int - 1));
        }
    }
    if ccnt > 0 {
        let lastc: usize = tree.nodes[st].children[ccnt - 1];
        if tree.nodes[lastc].kind == SyntaxKind::Semi {
            return None;
        }
    }
    // Find the initializer: the first child of expression kind.
    let mut k: usize = 0;
    let mut init: Option<usize> = None;
    while k < ccnt && init.is_none()
        invariant
            tree.wf(),
            tree.is_valid(st as int),
            ccnt == tree.nodes@[st as int].children@.len(),
            k <= ccnt,
            match init {
                None => tree.let_initializer(st as int) == tree.first_expr_child_from(
                    st as int,
                    k as int,
                ),
                Some(e0) => tree.let_initializer(st as int) == Some(e0 as int) && tree.is_valid(
                    e0 as int,
                ),
            },
        decreases ccnt - k + (if init is Some {
            0int
        } else {
            1int
        }),
    {
        proof {
            assert(node_ok(tree.text@.len() as int, tree.nodes@, st as int));
            assert(child_ok(tree.text@.len() as int, tree.nodes@, st as int, k as int));
        }
        let ck: usize = tree.nodes[st].children[k];
        let kd: SyntaxKind = tree.nodes[ck].kind;
        if kd == SyntaxKind::Expr || kd == SyntaxKind::BlockExpr {
            init = Some(ck);
            proof {
                assert(tree.first_expr_child_from(st as int, k as int) == Some(ck as int));
            }
        } else {
            k = k + 1;
        }
    }
    let e: usize = match init {
        Some(e) => e,
        None => {
            proof {
                assert(tree.let_initializer(st as int) is None);
            }
            return None;
        },
    };
    proof {
        assert(tree.let_initializer(st as int) == Some(e as int));
        assert(node_ok(tree.text@.len() as int, tree.nodes@, e as int));
    }
    let es: usize = tree.nodes[e].start;
    if offset > es {
        return None;
    }
    if has_newline_between(&tree.text, offset, es) {
        return None;
    }
    let stmt_end: usize = tree.nodes[st].end;
    let mut b = EditBuilder::new();
    b.insert(stmt_end, semicolon_text());
    let ed = b.finish();
    proof {
        assert(atoms_sorted(
            Seq::<SpecAtom>::empty().push(
                SpecAtom {
                    start: stmt_end as int,
                    end: stmt_end as int,
                    insert: seq![SEMICOLON],
                },
            ),
        ));
        assert(ed@ =~= seq![
            SpecAtom { start: tree.hi(st as int), end: tree.hi(st as int), insert: seq![SEMICOLON] },
        ]);
    }
    Some(LocalEdit { edit: ed, cursor_position: None })
}

} // verus!
