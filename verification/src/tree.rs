//! The paged B+Tree: an ordered collection of pages where position in the
//! collection is the page index every pointer field refers to. Page 0 is
//! always the current root, and pages are only appended or rewritten in
//! place, so indices stay stable across splits.

use vstd::prelude::*;
use vstd::string::*;
use crate::node::{
    insertion_index, Cell, CellV, Cursor, InternalCell, Node, NodeType, NodeV,
    INTERNAL_NODE_MAX_CELLS, LEAF_NODE_LEFT_SPLIT_COUNT, LEAF_NODE_MAX_CELLS,
    LEAF_NODE_RIGHT_SPLIT_COUNT,
};
use crate::row::{Row, RowV};
use crate::text::{dec_str, u32_to_string};

verus! {

pub struct Tree(pub Vec<Node>);

impl View for Tree {
    type V = Seq<NodeV>;

    open spec fn view(&self) -> Seq<NodeV> {
        self.0.deep_view()
    }
}

/// Page `q` is reachable from `n` through one of its cells or through its
/// rightmost child pointer.
pub open spec fn is_child_ptr(n: NodeV, q: int) -> bool {
    ||| n.right_child_offset == q
    ||| exists|i: int| 0 <= i < n.internal_cells.len() && (#[trigger] n.internal_cells[i]).child == q
}

/// Every pointer of the internal node `n` names a page below `len`.
pub open spec fn ptrs_ok(n: NodeV, len: int) -> bool {
    &&& n.right_child_offset < len
    &&& forall|i: int|
        0 <= i < n.internal_cells.len() ==> (#[trigger] n.internal_cells[i]).child < len
}

/// What a traversal needs of every page: local well-formedness and pointers
/// that stay inside the collection.
pub open spec fn nav_wf(t: Seq<NodeV>) -> bool {
    &&& t.len() > 0
    &&& forall|p: int| 0 <= p < t.len() ==> (#[trigger] t[p]).wf()
    &&& forall|p: int| 0 <= p < t.len() && !t[p].is_leaf() ==> ptrs_ok(#[trigger] t[p], t.len() as int)
}

/// `nd` with its parent pointer rewritten to `p`.
pub open spec fn reparent(nd: NodeV, p: int) -> NodeV {
    NodeV { parent_offset: p as u32, ..nd }
}

/// The leaf cell a row is stored as.
pub open spec fn cell_of(row: RowV) -> CellV {
    CellV { key: row.id, row, deleted: false }
}

/// The leaf cells a page contributes to the table's content.
pub open spec fn leaf_cells_of(n: NodeV) -> Seq<CellV> {
    if n.is_leaf() {
        n.cells
    } else {
        Seq::empty()
    }
}

/// The cells of all leaf pages with index in `lo..hi`, in page order.
pub open spec fn cells_range(t: Seq<NodeV>, lo: int, hi: int) -> Seq<CellV>
    decreases hi - lo,
{
    if lo >= hi {
        Seq::empty()
    } else {
        leaf_cells_of(t[lo]) + cells_range(t, lo + 1, hi)
    }
}

/// Every leaf cell of the tree, in page order.
pub open spec fn tree_cells(t: Seq<NodeV>) -> Seq<CellV> {
    cells_range(t, 0, t.len() as int)
}

pub proof fn lemma_cells_range_agree(t1: Seq<NodeV>, t2: Seq<NodeV>, lo: int, hi: int)
    requires
        hi <= t1.len(),
        hi <= t2.len(),
        forall|p: int| lo <= p < hi ==> leaf_cells_of(#[trigger] t1[p]) == leaf_cells_of(t2[p]),
    ensures
        cells_range(t1, lo, hi) == cells_range(t2, lo, hi),
    decreases hi - lo,
{
    if lo < hi {
        lemma_cells_range_agree(t1, t2, lo + 1, hi);
    }
}

pub proof fn lemma_cells_range_split(t: Seq<NodeV>, lo: int, mid: int, hi: int)
    requires
        lo <= mid <= hi,
    ensures
        cells_range(t, lo, hi) == cells_range(t, lo, mid) + cells_range(t, mid, hi),
    decreases mid - lo,
{
    if lo == mid {
        assert(cells_range(t, lo, mid) + cells_range(t, mid, hi) =~= cells_range(t, mid, hi));
    } else {
        lemma_cells_range_split(t, lo + 1, mid, hi);
        assert(cells_range(t, lo, hi) =~= cells_range(t, lo, mid) + cells_range(t, mid, hi));
    }
}

/// Pages outside any leaf contribute nothing.
pub proof fn lemma_cells_range_no_leaves(t: Seq<NodeV>, lo: int, hi: int)
    requires
        forall|p: int| lo <= p < hi ==> !(#[trigger] t[p]).is_leaf(),
    ensures
        cells_range(t, lo, hi) == Seq::<CellV>::empty(),
    decreases hi - lo,
{
    if lo < hi {
        lemma_cells_range_no_leaves(t, lo + 1, hi);
        assert(cells_range(t, lo, hi) =~= Seq::<CellV>::empty());
    }
}

/// The parent page after a new child is registered: if the new child's
/// maximum key exceeds the rightmost child's, the new child becomes the
/// rightmost child and the previous one is demoted into a cell; otherwise
/// the new child is inserted as a cell at its search position.
pub open spec fn spec_insert_child(parent: NodeV, rc: int, rm: u32, nc: int, nm: u32) -> NodeV {
    let idx = insertion_index(parent.internal_keys(), nm);
    if nm > rm {
        NodeV {
            num_of_cells: (parent.num_of_cells + 1) as u32,
            internal_cells: parent.internal_cells.insert(
                idx,
                InternalCell { child: rc as u32, key: rm },
            ),
            right_child_offset: nc as u32,
            ..parent
        }
    } else {
        NodeV {
            num_of_cells: (parent.num_of_cells + 1) as u32,
            internal_cells: parent.internal_cells.insert(
                idx,
                InternalCell { child: nc as u32, key: nm },
            ),
            ..parent
        }
    }
}

/// The tree after root promotion: a fresh Internal root at page 0 keyed by
/// the left node's maximum, the left node appended, and the old root demoted
/// and moved behind it as the rightmost child.
pub open spec fn spec_root_promotion(t: Seq<NodeV>, left: NodeV) -> Seq<NodeV> {
    let n = t.len() as int;
    Seq::new(
        (n + 2) as nat,
        |q: int|
            if q == 0 {
                NodeV {
                    node_type: NodeType::Internal,
                    is_root: true,
                    parent_offset: 0,
                    num_of_cells: 1,
                    cells: Seq::empty(),
                    next_leaf_offset: 0,
                    internal_cells: seq![
                        InternalCell { child: n as u32, key: left.cells.last().key },
                    ],
                    right_child_offset: (n + 1) as u32,
                }
            } else if q == n {
                NodeV { is_root: false, parent_offset: 0, next_leaf_offset: (n + 1) as u32, ..left }
            } else if q == n + 1 {
                NodeV { is_root: false, parent_offset: 0, ..t[0] }
            } else {
                t[q]
            },
    )
}

/// The tree after an overfull internal node at `pp` is split: the lower half
/// of its cells form a new left node, the rest and the old rightmost child a
/// new right node, both appended; `pp` itself is rewritten in place to hold
/// one cell over the two halves, and every child of the two new nodes is
/// repointed at its new parent.
pub open spec fn spec_internal_split(t: Seq<NodeV>, pp: int) -> Seq<NodeV> {
    let node = t[pp];
    let c = node.internal_cells;
    let sp = c.len() as int / 2;
    let n = t.len() as int;
    let left = NodeV {
        node_type: NodeType::Internal,
        is_root: false,
        parent_offset: pp as u32,
        num_of_cells: sp as u32,
        cells: Seq::empty(),
        next_leaf_offset: 0,
        internal_cells: c.take(sp),
        right_child_offset: c[sp].child,
    };
    let right = NodeV {
        node_type: NodeType::Internal,
        is_root: false,
        parent_offset: pp as u32,
        num_of_cells: (c.len() - sp - 1) as u32,
        cells: Seq::empty(),
        next_leaf_offset: 0,
        internal_cells: c.skip(sp + 1),
        right_child_offset: node.right_child_offset,
    };
    Seq::new(
        (n + 2) as nat,
        |q: int|
            if q == pp {
                NodeV {
                    num_of_cells: 1,
                    internal_cells: seq![InternalCell { child: n as u32, key: c[sp].key }],
                    right_child_offset: (n + 1) as u32,
                    ..node
                }
            } else if q == n {
                left
            } else if q == n + 1 {
                right
            } else if is_child_ptr(right, q) {
                reparent(t[q], n + 1)
            } else if is_child_ptr(left, q) {
                reparent(t[q], n)
            } else {
                t[q]
            },
    )
}

/// The tree with every leaf that linked to `old_pn` as its next sibling
/// relinked to `new_pn`.
pub open spec fn spec_sibling_repair(t: Seq<NodeV>, old_pn: int, new_pn: int) -> Seq<NodeV> {
    Seq::new(
        t.len(),
        |q: int|
            if t[q].is_leaf() && t[q].next_leaf_offset == old_pn {
                NodeV { next_leaf_offset: new_pn as u32, ..t[q] }
            } else {
                t[q]
            },
    )
}

/// The full leaf's cells with the new row's cell inserted at `cell_num`.
pub open spec fn inserted_cells(node: NodeV, cell_num: int, row: RowV) -> Seq<CellV> {
    node.cells.insert(cell_num, cell_of(row))
}

/// A non-root leaf split: siblings are repaired to link to the coming left
/// node, the existing page keeps the upper half of the cells, the new left
/// node takes the lower half and is appended, then it is registered with the
/// parent, which is split in turn if it became overfull.
/// A non-root leaf split before the parent is told: siblings rethreaded to
/// the coming left node, the existing page keeping the upper half of the
/// cells, and the new left node holding the lower half appended.
pub open spec fn spec_leaf_split_pages(t: Seq<NodeV>, pn: int, cell_num: int, row: RowV) -> Seq<
    NodeV,
> {
    let inserted = inserted_cells(t[pn], cell_num, row);
    let lo = inserted.take(LEAF_NODE_LEFT_SPLIT_COUNT as int);
    let hi = inserted.skip(LEAF_NODE_LEFT_SPLIT_COUNT as int);
    let n = t.len() as int;
    let t1 = spec_sibling_repair(t, pn, n);
    let t2 = t1.update(
        pn,
        NodeV { num_of_cells: LEAF_NODE_RIGHT_SPLIT_COUNT as u32, cells: hi, ..t1[pn] },
    );
    let left = NodeV {
        node_type: NodeType::Leaf,
        is_root: false,
        parent_offset: t[pn].parent_offset,
        num_of_cells: LEAF_NODE_LEFT_SPLIT_COUNT as u32,
        cells: lo,
        next_leaf_offset: pn as u32,
        internal_cells: Seq::empty(),
        right_child_offset: 0,
    };
    t2.push(left)
}

pub open spec fn spec_leaf_split(t: Seq<NodeV>, pn: int, cell_num: int, row: RowV) -> Seq<
    NodeV,
> {
    let inserted = inserted_cells(t[pn], cell_num, row);
    let lo = inserted.take(LEAF_NODE_LEFT_SPLIT_COUNT as int);
    let n = t.len() as int;
    let pr = t[pn].parent_offset as int;
    let t3 = spec_leaf_split_pages(t, pn, cell_num, row);
    let rc = t3[pr].right_child_offset as int;
    let t4 = t3.update(
        pr,
        spec_insert_child(t3[pr], rc, t3[rc].cells.last().key, n, lo.last().key),
    );
    if t4[pr].internal_cells.len() > INTERNAL_NODE_MAX_CELLS {
        spec_internal_split(t4, pr)
    } else {
        t4
    }
}

/// The tree after a full leaf at the cursor's page absorbs one more row and
/// splits.
pub open spec fn spec_split_result(t: Seq<NodeV>, pn: int, cell_num: int, row: RowV) -> Seq<
    NodeV,
> {
    if t[pn].is_root {
        let inserted = inserted_cells(t[pn], cell_num, row);
        let lo = inserted.take(LEAF_NODE_LEFT_SPLIT_COUNT as int);
        let hi = inserted.skip(LEAF_NODE_LEFT_SPLIT_COUNT as int);
        let halved = t.update(
            pn,
            NodeV { num_of_cells: LEAF_NODE_RIGHT_SPLIT_COUNT as u32, cells: hi, ..t[pn] },
        );
        let left = NodeV {
            node_type: NodeType::Leaf,
            is_root: false,
            parent_offset: 0,
            num_of_cells: LEAF_NODE_LEFT_SPLIT_COUNT as u32,
            cells: lo,
            next_leaf_offset: pn as u32,
            internal_cells: Seq::empty(),
            right_child_offset: 0,
        };
        spec_root_promotion(halved, left)
    } else {
        spec_leaf_split(t, pn, cell_num, row)
    }
}

/// What a leaf split requires of the cursor's page: a full, locally
/// well-formed leaf whose cursor slot respects the key order.
pub open spec fn split_leaf_pre(t: Seq<NodeV>, pn: int, cell_num: int, row: RowV) -> bool {
    &&& 0 <= pn < t.len()
    &&& t.len() + 3 <= u32::MAX
    &&& t[pn].is_leaf()
    &&& t[pn].num_of_cells == t[pn].cells.len()
    &&& t[pn].cells.len() == LEAF_NODE_MAX_CELLS
    &&& 0 <= cell_num <= LEAF_NODE_MAX_CELLS
    &&& row.wf()
    &&& (forall|k: int| 0 <= k < cell_num ==> (#[trigger] t[pn].cells[k]).key < row.id)
    &&& (forall|k: int| cell_num <= k < t[pn].cells.len() ==> (#[trigger] t[pn].cells[k]).key > row.id)
    &&& (t[pn].is_root ==> pn == 0)
}

/// What a non-root leaf split additionally requires of the parent page and
/// the parent's rightmost child.
pub open spec fn split_parent_pre(t: Seq<NodeV>, pn: int, row: RowV) -> bool {
    let pr = t[pn].parent_offset as int;
    let rc = t[pr].right_child_offset as int;
    &&& 0 <= pr < t.len()
    &&& pr != pn
    &&& !t[pr].is_leaf()
    &&& t[pr].internal_sorted()
    &&& t[pr].num_of_cells == t[pr].internal_cells.len()
    &&& t[pr].internal_cells.len() + 2 < u32::MAX
    &&& ptrs_ok(t[pr], t.len() as int)
    &&& !is_child_ptr(t[pr], pr)
    &&& rc != pr
    &&& t[rc].is_leaf()
    &&& t[rc].cells.len() > 0
    &&& t[rc].num_of_cells == t[rc].cells.len()
    &&& (t[pr].internal_keys().contains(t[pn].cells.last().key) ==> row.id < t[pn].cells.last().key)
    &&& (forall|k: int|
        0 <= k < t[pr].internal_cells.len() ==> (#[trigger] t[pr].internal_cells[k]).key
            < split_low_key(t, pn, row) || t[pr].internal_cells[k].key >= t[pn].cells.last().key)
    &&& (rc == pn || t[rc].cells.last().key > t[pn].cells.last().key)
}

/// The smallest key the split leaf will hold once the row is in: its parent
/// carries no separator key at or above it but below the leaf's maximum,
/// since the leaf's key range is contiguous in the tree.
pub open spec fn split_low_key(t: Seq<NodeV>, pn: int, row: RowV) -> u32 {
    if row.id < t[pn].cells[0].key {
        row.id
    } else {
        t[pn].cells[0].key
    }
}

/// A full leaf's cells stay strictly sorted once the row is inserted at its
/// sorted position.
pub proof fn lemma_inserted_sorted(t: Seq<NodeV>, pn: int, cell_num: int, row: RowV)
    requires
        split_leaf_pre(t, pn, cell_num, row),
        t[pn].leaf_sorted(),
    ensures
        ({
            let inserted = inserted_cells(t[pn], cell_num, row);
            &&& (forall|i: int, j: int|
                0 <= i < j < inserted.len() ==> (#[trigger] inserted[i]).key < (
                #[trigger] inserted[j]).key)
            &&& (forall|i: int|
                0 <= i < inserted.len() ==> (#[trigger] inserted[i]).row.id == inserted[i].key
                    && inserted[i].row.wf())
        }),
{
    let inserted = inserted_cells(t[pn], cell_num, row);
    let c = t[pn].cells;
    assert forall|i: int, j: int|
        0 <= i < j < inserted.len() implies (#[trigger] inserted[i]).key < (
    #[trigger] inserted[j]).key by {
        if i < cell_num && j < cell_num {
            assert(inserted[i] == c[i] && inserted[j] == c[j]);
        } else if i < cell_num && j == cell_num {
            assert(inserted[i] == c[i]);
        } else if i < cell_num {
            assert(inserted[i] == c[i] && inserted[j] == c[j - 1]);
            assert(c[j - 1].key > row.id);
            if j - 1 > i {
            } else {
                assert(c[i].key < row.id);
            }
        } else if i == cell_num {
            assert(inserted[j] == c[j - 1]);
        } else {
            assert(inserted[i] == c[i - 1] && inserted[j] == c[j - 1]);
        }
    }
    assert forall|i: int|
        0 <= i < inserted.len() implies (#[trigger] inserted[i]).row.id == inserted[i].key
        && inserted[i].row.wf() by {
        if i < cell_num {
            assert(inserted[i] == c[i]);
        } else if i > cell_num {
            assert(inserted[i] == c[i - 1]);
        }
    }
}

/// A split hands back a navigable tree: every page of the result is locally
/// well-formed and every internal pointer stays inside the collection, so
/// searches and further inserts can run on it.
pub proof fn lemma_split_result_wf(t: Seq<NodeV>, pn: int, cell_num: int, row: RowV)
    requires
        nav_wf(t),
        split_leaf_pre(t, pn, cell_num, row),
        !t[pn].is_root ==> split_parent_pre(t, pn, row),
    ensures
        nav_wf(spec_split_result(t, pn, cell_num, row)),
{
    let res = spec_split_result(t, pn, cell_num, row);
    let inserted = inserted_cells(t[pn], cell_num, row);
    let lo = inserted.take(LEAF_NODE_LEFT_SPLIT_COUNT as int);
    let hi = inserted.skip(LEAF_NODE_LEFT_SPLIT_COUNT as int);
    let n = t.len() as int;
    lemma_inserted_sorted(t, pn, cell_num, row);
    if t[pn].is_root {
        assert(res.len() == n + 2);
        assert forall|p: int| 0 <= p < res.len() implies (#[trigger] res[p]).wf() by {
            if p == 0 {
            } else if p == n {
                assert(res[p].cells =~= lo);
                assert(res[p].wf());
            } else if p == n + 1 {
                assert(res[p].cells =~= hi);
                assert(res[p].wf());
            } else {
                assert(res[p] == t[p]);
            }
        }
        assert forall|p: int|
            0 <= p < res.len() && !res[p].is_leaf() implies ptrs_ok(
            #[trigger] res[p],
            res.len() as int,
        ) by {
            if p == 0 {
                assert forall|i: int|
                    0 <= i < res[0].internal_cells.len() implies (
                #[trigger] res[0].internal_cells[i]).child < res.len() by {
                    assert(res[0].internal_cells[i] == (InternalCell {
                        child: n as u32,
                        key: lo.last().key,
                    }));
                }
            } else if p < n {
                assert(res[p] == t[p]);
                assert(ptrs_ok(t[p], n));
            }
        }
    } else {
        let pr = t[pn].parent_offset as int;
        let t1 = spec_sibling_repair(t, pn, n);
        let leftn = NodeV {
            node_type: NodeType::Leaf,
            is_root: false,
            parent_offset: t[pn].parent_offset,
            num_of_cells: LEAF_NODE_LEFT_SPLIT_COUNT as u32,
            cells: lo,
            next_leaf_offset: pn as u32,
            internal_cells: Seq::empty(),
            right_child_offset: 0,
        };
        let t3 = spec_leaf_split_pages(t, pn, cell_num, row);
        assert(t3.len() == n + 1);
        assert(t3[pr] == t[pr]) by {
            assert(t1[pr] == t[pr]);
        }
        assert(t3[n] == leftn);
        assert(t3[pn] == (NodeV {
            num_of_cells: LEAF_NODE_RIGHT_SPLIT_COUNT as u32,
            cells: hi,
            ..t1[pn]
        }));
        // each page of the intermediate tree is well-formed
        assert forall|p: int| 0 <= p < t3.len() implies (#[trigger] t3[p]).wf() && (!t3[p].is_leaf()
            ==> ptrs_ok(t3[p], n)) by {
            if p == n {
                assert(t3[p].cells =~= lo);
                assert(t3[p].wf());
            } else if p == pn {
                assert(t3[p].cells =~= hi);
                assert(t3[p].wf());
            } else {
                assert(t1[p].cells == t[p].cells && t1[p].internal_cells == t[p].internal_cells
                    && t1[p].num_of_cells == t[p].num_of_cells && t1[p].node_type
                    == t[p].node_type && t1[p].right_child_offset == t[p].right_child_offset);
                assert(t3[p].wf());
                if !t3[p].is_leaf() {
                    assert(ptrs_ok(t[p], n));
                }
            }
        }
        // the new child's maximum sits strictly below the old maximum ...
        let old_max = t[pn].cells.last().key;
        let nm = lo.last().key;
        let low = split_low_key(t, pn, row);
        assert(lo.last() == inserted[LEAF_NODE_LEFT_SPLIT_COUNT - 1]);
        assert(inserted.len() == LEAF_NODE_MAX_CELLS + 1);
        assert(nm < old_max) by {
            if cell_num == LEAF_NODE_MAX_CELLS {
                assert(inserted[LEAF_NODE_MAX_CELLS - 1] == t[pn].cells[LEAF_NODE_MAX_CELLS - 1]);
                assert(inserted[LEAF_NODE_LEFT_SPLIT_COUNT - 1].key < inserted[LEAF_NODE_MAX_CELLS
                    - 1].key);
            } else {
                assert(inserted[LEAF_NODE_MAX_CELLS as int] == t[pn].cells[LEAF_NODE_MAX_CELLS
                    - 1]);
                assert(inserted[LEAF_NODE_LEFT_SPLIT_COUNT - 1].key
                    < inserted[LEAF_NODE_MAX_CELLS as int].key);
            }
        }
        assert(nm >= low) by {
            if cell_num == 0 {
                assert(inserted[0] == cell_of(row));
                assert(t[pn].cells[0].key > row.id);
            } else {
                assert(inserted[0] == t[pn].cells[0]);
                assert(t[pn].cells[0].key < row.id);
            }
            assert(inserted[0].key == low);
            assert(inserted[0].key <= inserted[LEAF_NODE_LEFT_SPLIT_COUNT - 1].key);
        }
        // ... so the new child never displaces the rightmost child
        let rc = t3[pr].right_child_offset as int;
        let rm = t3[rc].cells.last().key;
        assert(!(nm > rm)) by {
            if rc == pn {
                assert(rm == hi.last().key);
                assert(hi.last() == inserted.last());
                assert(inserted[LEAF_NODE_LEFT_SPLIT_COUNT - 1].key
                    < inserted[LEAF_NODE_MAX_CELLS as int].key);
            } else {
                assert(t3[rc].cells == t[rc].cells);
                assert(rm > old_max);
            }
        }
        // the registered cell lands at its sorted position in the parent
        let keys = t3[pr].internal_keys();
        let idx = insertion_index(keys, nm);
        crate::node::lemma_insertion_index_props(keys, nm);
        let parent4 = spec_insert_child(t3[pr], rc, rm, n, nm);
        let ic4 = parent4.internal_cells;
        assert(ic4 == t3[pr].internal_cells.insert(idx, InternalCell { child: n as u32, key: nm }));
        assert forall|i: int, j: int|
            0 <= i < j < ic4.len() implies (#[trigger] ic4[i]).key < (#[trigger] ic4[j]).key by {
            let c = t3[pr].internal_cells;
            assert(forall|k: int| 0 <= k < c.len() ==> keys[k] == (#[trigger] c[k]).key);
            if j < idx {
                assert(ic4[i] == c[i] && ic4[j] == c[j]);
            } else if j == idx {
                assert(ic4[i] == c[i]);
            } else if i < idx {
                assert(ic4[i] == c[i] && ic4[j] == c[j - 1]);
                assert(c[j - 1].key >= nm);
                assert(c[j - 1].key >= old_max || c[j - 1].key < low);
                assert(c[i].key < nm);
            } else if i == idx {
                assert(ic4[j] == c[j - 1]);
                assert(c[j - 1].key >= nm);
                assert(c[j - 1].key >= old_max || c[j - 1].key < low);
            } else {
                assert(ic4[i] == c[i - 1] && ic4[j] == c[j - 1]);
            }
        }
        assert forall|i: int|
            0 <= i < ic4.len() implies (#[trigger] ic4[i]).child < n + 1 && ic4[i].child != pr by {
            let c = t3[pr].internal_cells;
            if i < idx {
                assert(ic4[i] == c[i]);
                assert(c[i].child < n && c[i].child != pr);
            } else if i > idx {
                assert(ic4[i] == c[i - 1]);
                assert(c[i - 1].child < n && c[i - 1].child != pr);
            }
        }
        let t4 = t3.update(pr, parent4);
        assert forall|p: int| 0 <= p < t4.len() implies (#[trigger] t4[p]).wf() && (!t4[p].is_leaf()
            ==> ptrs_ok(t4[p], t4.len() as int)) by {
            if p == pr {
                assert(t4[p].num_of_cells == ic4.len());
                assert(t4[p].wf());
                assert(ptrs_ok(t4[p], t4.len() as int));
            } else {
                assert(t4[p] == t3[p]);
                if !t4[p].is_leaf() {
                    assert(ptrs_ok(t3[p], n));
                }
            }
        }
        if ic4.len() > INTERNAL_NODE_MAX_CELLS {
            let res5 = spec_internal_split(t4, pr);
            let c = ic4;
            let sp = c.len() as int / 2;
            let n4 = t4.len() as int;
            assert(res5 == res);
            assert forall|p: int| 0 <= p < res5.len() implies (#[trigger] res5[p]).wf() by {
                if p == pr {
                    assert(res5[p].internal_cells =~= seq![
                        InternalCell { child: n4 as u32, key: c[sp].key },
                    ]);
                    assert(res5[p].wf());
                } else if p == n4 {
                    assert(res5[p].internal_cells =~= c.take(sp));
                    assert(res5[p].wf());
                } else if p == n4 + 1 {
                    assert(res5[p].internal_cells =~= c.skip(sp + 1));
                    assert forall|i: int, j: int|
                        0 <= i < j < res5[p].internal_cells.len() implies (
                    #[trigger] res5[p].internal_cells[i]).key < (
                    #[trigger] res5[p].internal_cells[j]).key by {
                        assert(res5[p].internal_cells[i] == c[i + sp + 1]);
                        assert(res5[p].internal_cells[j] == c[j + sp + 1]);
                    }
                    assert(res5[p].wf());
                } else {
                    assert(res5[p] == t4[p] || res5[p] == reparent(t4[p], n4) || res5[p]
                        == reparent(t4[p], n4 + 1));
                    assert(t4[p].wf());
                }
            }
            assert forall|p: int|
                0 <= p < res5.len() && !res5[p].is_leaf() implies ptrs_ok(
                #[trigger] res5[p],
                res5.len() as int,
            ) by {
                if p == pr {
                    assert forall|i: int|
                        0 <= i < res5[p].internal_cells.len() implies (
                    #[trigger] res5[p].internal_cells[i]).child < res5.len() by {
                        assert(res5[p].internal_cells =~= seq![
                            InternalCell { child: n4 as u32, key: c[sp].key },
                        ]);
                    }
                } else if p == n4 {
                    assert forall|i: int|
                        0 <= i < res5[p].internal_cells.len() implies (
                    #[trigger] res5[p].internal_cells[i]).child < res5.len() by {
                        assert(res5[p].internal_cells[i] == c[i]);
                    }
                } else if p == n4 + 1 {
                    assert forall|i: int|
                        0 <= i < res5[p].internal_cells.len() implies (
                    #[trigger] res5[p].internal_cells[i]).child < res5.len() by {
                        assert(res5[p].internal_cells[i] == c[i + sp + 1]);
                    }
                } else {
                    assert(res5[p] == t4[p] || res5[p] == reparent(t4[p], n4) || res5[p]
                        == reparent(t4[p], n4 + 1));
                    assert(ptrs_ok(t4[p], t4.len() as int));
                    assert(res5[p].internal_cells == t4[p].internal_cells
                        && res5[p].right_child_offset == t4[p].right_child_offset);
                }
            }
        } else {
            assert(res == t4);
        }
    }
}

impl Tree {
    /// An empty collection of pages; the table gives it its root leaf.
    pub fn new() -> (t: Tree)
        ensures
            t@ == Seq::<NodeV>::empty(),
    {
        let t = Tree(Vec::new());
        proof {
            assert(t@ =~= Seq::<NodeV>::empty());
        }
        t
    }

    pub fn nodes(&self) -> (r: &Vec<Node>)
        ensures
            r.deep_view() == self@,
    {
        &self.0
    }

    pub fn mut_nodes(&mut self) -> (r: &mut Vec<Node>)
        ensures
            r.deep_view() == old(self)@,
            final(self)@ == final(r).deep_view(),
    {
        &mut self.0
    }

    /// Repoints `parent_offset` on every page reachable through `page_num`'s
    /// cells or its rightmost child pointer to `page_num` itself. Called
    /// whenever a node's child set changes.
    pub fn update_children_parent_offset(&mut self, page_num: u32)
        requires
            (page_num as int) < old(self)@.len(),
            !old(self)@[page_num as int].is_leaf(),
            ptrs_ok(old(self)@[page_num as int], old(self)@.len() as int),
        ensures
            final(self)@ == Seq::new(
                old(self)@.len(),
                |q: int|
                    if is_child_ptr(old(self)@[page_num as int], q) {
                        reparent(old(self)@[q], page_num as int)
                    } else {
                        old(self)@[q]
                    },
            ),
    {
        let ghost t = old(self)@;
        let ghost target = Seq::new(
            t.len(),
            |q: int|
                if is_child_ptr(t[page_num as int], q) {
                    reparent(t[q], page_num as int)
                } else {
                    t[q]
                },
        );
        let p = page_num as usize;
        let mut child_pointers: Vec<usize> = Vec::new();
        let node = &self.0[p];
        proof {
            assert(t[p as int] == self.0@[p as int]@);
            assert(node@ == t[p as int]);
        }
        child_pointers.push(node.right_child_offset as usize);
        let mut i: usize = 0;
        while i < node.internal_cells.len()
            invariant
                0 <= i <= node@.internal_cells.len(),
                node@ == t[page_num as int],
                (page_num as int) < t.len(),
                ptrs_ok(t[page_num as int], t.len() as int),
                child_pointers@.len() == i + 1,
                child_pointers@[0] == node@.right_child_offset as usize,
                forall|k: int| 0 <= k < i ==> child_pointers@[k + 1] == node@.internal_cells[k].child,
                forall|k: int| 0 <= k < child_pointers@.len() ==> child_pointers@[k] < t.len(),
            decreases node@.internal_cells.len() - i,
        {
            child_pointers.push(node.internal_cells[i].child as usize);
            i = i + 1;
        }
        proof {
            assert forall|q: int| is_child_ptr(t[page_num as int], q) implies exists|k: int|
                0 <= k < child_pointers@.len() && child_pointers@[k] == q by {
                if t[page_num as int].right_child_offset == q {
                    assert(child_pointers@[0] == q);
                } else {
                    let w = choose|i: int|
                        0 <= i < t[page_num as int].internal_cells.len() && (#[trigger] t[page_num
                            as int].internal_cells[i]).child == q;
                    assert(child_pointers@[w + 1] == q);
                }
            }
            assert forall|k: int|
                0 <= k < child_pointers@.len() implies is_child_ptr(
                t[page_num as int],
                child_pointers@[k] as int,
            ) by {
                if k > 0 {
                    assert(t[page_num as int].internal_cells[k - 1].child == child_pointers@[k]);
                }
            }
        }
        let mut j: usize = 0;
        while j < child_pointers.len()
            invariant
                0 <= j <= child_pointers@.len(),
                self@.len() == t.len(),
                target.len() == t.len(),
                (page_num as int) < t.len(),
                forall|k: int| 0 <= k < child_pointers@.len() ==> child_pointers@[k] < t.len(),
                forall|k: int|
                    0 <= k < child_pointers@.len() ==> is_child_ptr(
                        t[page_num as int],
                        child_pointers@[k] as int,
                    ),
                forall|q: int|
                    is_child_ptr(t[page_num as int], q) ==> exists|k: int|
                        0 <= k < child_pointers@.len() && child_pointers@[k] == q,
                forall|q: int|
                    0 <= q < t.len() ==> self@[q] == if exists|k: int|
                        0 <= k < j && child_pointers@[k] == q {
                        reparent(t[q], page_num as int)
                    } else {
                        t[q]
                    },
            decreases child_pointers@.len() - j,
        {
            let ghost prev_vec = self.0@;
            let ghost prev = self@;
            let c = child_pointers[j];
            let child = &mut self.0[c];
            child.parent_offset = page_num;
            proof {
                assert forall|q: int| 0 <= q < t.len() implies self@[q] == (if exists|k: int|
                    0 <= k < j + 1 && child_pointers@[k] == q {
                    reparent(t[q], page_num as int)
                } else {
                    t[q]
                }) by {
                    assert(self@[q] == self.0@[q]@);
                    assert(prev[q] == prev_vec[q]@);
                    if q == c {
                        assert(child_pointers@[j as int] == q);
                        assert(self@[q] =~= reparent(prev[q], page_num as int));
                        if exists|k: int| 0 <= k < j && child_pointers@[k] == q {
                            assert(prev[q] == reparent(t[q], page_num as int));
                            assert(self@[q] =~= reparent(t[q], page_num as int));
                        } else {
                            assert(prev[q] == t[q]);
                        }
                    } else {
                        assert(self.0@[q] == prev_vec[q]);
                        assert(self@[q] == prev[q]);
                    }
                }
            }
            j = j + 1;
        }
        proof {
            assert forall|q: int| 0 <= q < t.len() implies self@[q] == target[q] by {
                if is_child_ptr(t[page_num as int], q) {
                    let k = choose|k: int|
                        0 <= k < child_pointers@.len() && child_pointers@[k] == q;
                    assert(0 <= k < child_pointers@.len() && child_pointers@[k] == q);
                }
            }
            assert(self@ =~= target);
        }
    }

    /// Promotes a new Internal root when the root leaf overflows: the old
    /// root is demoted and moved to the end, keeping the larger keys; the
    /// new node holding the smaller keys becomes its left sibling; page 0
    /// becomes a fresh Internal root over the two.
    pub fn create_new_root(&mut self, old_node_page_num: usize, new_node: Node)
        requires
            old_node_page_num == 0,
            old(self)@.len() >= 1,
            old(self)@.len() + 2 <= u32::MAX,
            new_node@.is_leaf(),
            new_node@.cells.len() > 0,
            new_node@.num_of_cells == new_node@.cells.len(),
        ensures
            final(self)@ == spec_root_promotion(old(self)@, new_node@),
    {
        let ghost t = old(self)@;
        let n = self.0.len();
        let mut left = new_node;
        let left_max = left.get_max_key();
        left.is_root = false;
        left.parent_offset = 0;
        left.next_leaf_offset = (n + 1) as u32;
        let mut root_node = Node::new(true, NodeType::Internal);
        root_node.num_of_cells = 1;
        root_node.right_child_offset = (n + 1) as u32;
        root_node.internal_insert(0, InternalCell::new(n as u32, left_max));
        self.0.push(left);
        self.0.push(root_node);
        let mut old_root = self.0.swap_remove(old_node_page_num);
        old_root.is_root = false;
        old_root.parent_offset = 0;
        self.0.push(old_root);
        proof {
            let target = spec_root_promotion(t, new_node@);
            assert forall|q: int| 0 <= q < target.len() implies self@[q] == target[q] by {
                assert(self@[q] == self.0@[q]@);
                if q == 0 {
                    assert(self@[q] =~= target[q]);
                } else if q == n {
                    assert(self@[q] =~= target[q]);
                } else if q == n + 1 {
                    assert(self@[q] =~= target[q]);
                } else {
                    assert(self.0@[q] == old(self).0@[q]);
                }
            }
            assert(self@ =~= target);
        }
    }

    /// Registers a freshly created child page with its parent, demoting the
    /// previous rightmost child into a cell when the new child holds the
    /// larger keys.
    pub fn insert_internal_node(&mut self, parent_page_num: usize, new_child_page_num: usize)
        requires
            parent_page_num < old(self)@.len(),
            new_child_page_num < old(self)@.len(),
            parent_page_num != new_child_page_num,
            !old(self)@[parent_page_num as int].is_leaf(),
            old(self)@[parent_page_num as int].internal_sorted(),
            old(self)@[parent_page_num as int].num_of_cells == old(
                self,
            )@[parent_page_num as int].internal_cells.len(),
            old(self)@[parent_page_num as int].num_of_cells < u32::MAX,
            old(self)@[parent_page_num as int].right_child_offset < old(self)@.len(),
            old(self)@[parent_page_num as int].right_child_offset != parent_page_num,
            ({
                let rc = old(self)@[parent_page_num as int].right_child_offset as int;
                &&& old(self)@[rc].is_leaf()
                &&& old(self)@[rc].cells.len() > 0
                &&& old(self)@[rc].num_of_cells == old(self)@[rc].cells.len()
            }),
            old(self)@[new_child_page_num as int].is_leaf(),
            old(self)@[new_child_page_num as int].cells.len() > 0,
            old(self)@[new_child_page_num as int].num_of_cells == old(
                self,
            )@[new_child_page_num as int].cells.len(),
        ensures
            final(self)@ == old(self)@.update(
                parent_page_num as int,
                spec_insert_child(
                    old(self)@[parent_page_num as int],
                    old(self)@[parent_page_num as int].right_child_offset as int,
                    old(self)@[old(self)@[parent_page_num as int].right_child_offset as int].cells.last().key,
                    new_child_page_num as int,
                    old(self)@[new_child_page_num as int].cells.last().key,
                ),
            ),
    {
        let ghost t = old(self)@;
        let parent_right_child_offset = self.0[parent_page_num].right_child_offset as usize;
        proof {
            assert(t[parent_page_num as int] == self.0@[parent_page_num as int]@);
            assert(t[parent_right_child_offset as int]
                == self.0@[parent_right_child_offset as int]@);
            assert(t[new_child_page_num as int] == self.0@[new_child_page_num as int]@);
        }
        let new_node = &self.0[new_child_page_num];
        let new_child_max_key = new_node.get_max_key();
        let right_child = &self.0[parent_right_child_offset];
        let right_max_key = right_child.get_max_key();
        let parent = &mut self.0[parent_page_num];
        parent.num_of_cells = parent.num_of_cells + 1;
        let index = parent.internal_search(new_child_max_key);
        if new_child_max_key > right_max_key {
            parent.right_child_offset = new_child_page_num as u32;
            parent.internal_insert(
                index,
                InternalCell::new(parent_right_child_offset as u32, right_max_key),
            );
        } else {
            parent.internal_insert(
                index,
                InternalCell::new(new_child_page_num as u32, new_child_max_key),
            );
        }
        proof {
            let target = t.update(
                parent_page_num as int,
                spec_insert_child(
                    t[parent_page_num as int],
                    t[parent_page_num as int].right_child_offset as int,
                    t[t[parent_page_num as int].right_child_offset as int].cells.last().key,
                    new_child_page_num as int,
                    t[new_child_page_num as int].cells.last().key,
                ),
            );
            assert forall|q: int| 0 <= q < t.len() implies self@[q] == target[q] by {
                assert(self@[q] == self.0@[q]@);
                if q == parent_page_num {
                    assert(self@[q] =~= target[q]);
                } else {
                    assert(self.0@[q] == old(self).0@[q]);
                }
            }
            assert(self@ =~= target);
        }
    }

    /// Splits an internal node that has grown past the cell threshold: the
    /// two halves become new appended nodes, the node itself is rewritten in
    /// place as their parent, and the halves' children are repointed.
    pub fn maybe_split_internal_node(&mut self, parent_page_num: usize)
        requires
            parent_page_num < old(self)@.len(),
            old(self)@.len() + 2 <= u32::MAX,
            !old(self)@[parent_page_num as int].is_leaf(),
            old(self)@[parent_page_num as int].num_of_cells == old(
                self,
            )@[parent_page_num as int].internal_cells.len(),
            ptrs_ok(old(self)@[parent_page_num as int], old(self)@.len() as int),
            !is_child_ptr(old(self)@[parent_page_num as int], parent_page_num as int),
        ensures
            old(self)@[parent_page_num as int].internal_cells.len() <= INTERNAL_NODE_MAX_CELLS
                ==> final(self)@ == old(self)@,
            old(self)@[parent_page_num as int].internal_cells.len() > INTERNAL_NODE_MAX_CELLS
                ==> final(self)@ == spec_internal_split(old(self)@, parent_page_num as int),
    {
        let ghost t = old(self)@;
        let n = self.0.len();
        proof {
            assert(t[parent_page_num as int] == self.0@[parent_page_num as int]@);
        }
        let num_cells = self.0[parent_page_num].num_of_cells as usize;
        if num_cells <= INTERNAL_NODE_MAX_CELLS {
            proof {
                assert(self@ =~= t);
            }
            return ;
        }
        let ghost c = t[parent_page_num as int].internal_cells;
        let split_at_index = num_cells / 2;
        let mut left_node = Node::new(false, NodeType::Internal);
        let mut right_node = Node::new(false, NodeType::Internal);
        let mut i: usize = 0;
        while i < split_at_index
            invariant
                0 <= i <= split_at_index,
                split_at_index < c.len(),
                c.len() <= u32::MAX,
                parent_page_num < self@.len(),
                self@.len() == t.len(),
                self@[parent_page_num as int] == (NodeV { internal_cells: c.skip(i as int), ..t[parent_page_num as int] }),
                forall|q: int| 0 <= q < t.len() && q != parent_page_num ==> self@[q] == t[q],
                left_node@ == (NodeV {
                    node_type: NodeType::Internal,
                    is_root: false,
                    parent_offset: 0,
                    num_of_cells: i as u32,
                    cells: Seq::<CellV>::empty(),
                    next_leaf_offset: 0,
                    internal_cells: c.take(i as int),
                    right_child_offset: 0,
                }),
                right_node@ == (NodeV {
                    node_type: NodeType::Internal,
                    is_root: false,
                    parent_offset: 0,
                    num_of_cells: 0,
                    cells: Seq::<CellV>::empty(),
                    next_leaf_offset: 0,
                    internal_cells: Seq::<InternalCell>::empty(),
                    right_child_offset: 0,
                }),
            decreases split_at_index - i,
        {
            let ghost prev_vec = self.0@;
            let ic = self.0[parent_page_num].internal_cells.remove(0);
            left_node.internal_insert(i, ic);
            left_node.num_of_cells = left_node.num_of_cells + 1;
            i = i + 1;
            proof {
                assert(self@[parent_page_num as int] == self.0@[parent_page_num as int]@);
                assert(self@[parent_page_num as int].internal_cells =~= c.skip(i as int));
                assert(self@[parent_page_num as int] =~= (NodeV { internal_cells: c.skip(i as int), ..t[parent_page_num as int] }));
                assert(left_node@.internal_cells =~= c.take(i as int));
                assert(left_node@ =~= (NodeV {
                    node_type: NodeType::Internal,
                    is_root: false,
                    parent_offset: 0,
                    num_of_cells: i as u32,
                    cells: Seq::<CellV>::empty(),
                    next_leaf_offset: 0,
                    internal_cells: c.take(i as int),
                    right_child_offset: 0,
                }));
                assert forall|q: int|
                    0 <= q < t.len() && q != parent_page_num implies self@[q] == t[q] by {
                    assert(self.0@[q] == prev_vec[q]);
                }
            }
        }
        let ic = self.0[parent_page_num].internal_cells.remove(0);
        proof {
            assert(ic == c[split_at_index as int]);
            assert(self@[parent_page_num as int].internal_cells =~= c.skip(
                split_at_index + 1,
            ));
        }
        left_node.right_child_offset = ic.child_pointer();
        left_node.parent_offset = parent_page_num as u32;
        let mut j: usize = 0;
        let ghost rest = c.skip(split_at_index + 1);
        while self.0[parent_page_num].internal_cells.len() > 0
            invariant
                parent_page_num < self@.len(),
                self@.len() == t.len(),
                0 <= j <= rest.len(),
                rest.len() < c.len() <= u32::MAX,
                self@[parent_page_num as int] == (NodeV { internal_cells: rest.skip(j as int), ..t[parent_page_num as int] }),
                forall|q: int| 0 <= q < t.len() && q != parent_page_num ==> self@[q] == t[q],
                right_node@ == (NodeV {
                    node_type: NodeType::Internal,
                    is_root: false,
                    parent_offset: 0,
                    num_of_cells: j as u32,
                    cells: Seq::<CellV>::empty(),
                    next_leaf_offset: 0,
                    internal_cells: rest.take(j as int),
                    right_child_offset: 0,
                }),
                left_node@.internal_cells.len() == split_at_index,
            decreases self@[parent_page_num as int].internal_cells.len(),
        {
            let ghost prev_vec = self.0@;
            let ic2 = self.0[parent_page_num].internal_cells.remove(0);
            right_node.internal_insert(j, ic2);
            right_node.num_of_cells = right_node.num_of_cells + 1;
            j = j + 1;
            proof {
                assert(self@[parent_page_num as int] == self.0@[parent_page_num as int]@);
                assert(self@[parent_page_num as int].internal_cells =~= rest.skip(j as int));
                assert(self@[parent_page_num as int] =~= (NodeV { internal_cells: rest.skip(j as int), ..t[parent_page_num as int] }));
                assert(right_node@.internal_cells =~= rest.take(j as int));
                assert(right_node@ =~= (NodeV {
                    node_type: NodeType::Internal,
                    is_root: false,
                    parent_offset: 0,
                    num_of_cells: j as u32,
                    cells: Seq::<CellV>::empty(),
                    next_leaf_offset: 0,
                    internal_cells: rest.take(j as int),
                    right_child_offset: 0,
                }));
                assert forall|q: int|
                    0 <= q < t.len() && q != parent_page_num implies self@[q] == t[q] by {
                    assert(self.0@[q] == prev_vec[q]);
                }
            }
        }
        proof {
            assert(rest.take(j as int) =~= rest);
        }
        right_node.right_child_offset = self.0[parent_page_num].right_child_offset;
        right_node.parent_offset = parent_page_num as u32;
        let key_mid = ic.key();
        {
            let ghost prev_vec = self.0@;
            let node = &mut self.0[parent_page_num];
            node.right_child_offset = (n + 1) as u32;
            node.internal_insert(0, InternalCell::new(n as u32, key_mid));
            node.num_of_cells = 1;
            proof {
                assert forall|q: int|
                    0 <= q < t.len() && q != parent_page_num implies self@[q] == t[q] by {
                    assert(self.0@[q] == prev_vec[q]);
                    assert(self@[q] == self.0@[q]@);
                }
                assert(self@[parent_page_num as int] == self.0@[parent_page_num as int]@);
            }
        }
        let ghost mid = self@;
        proof {
            assert(mid[parent_page_num as int].internal_cells =~= seq![
                InternalCell { child: n as u32, key: c[split_at_index as int].key },
            ]);
        }
        self.0.push(left_node);
        proof {
            assert(self@ =~= mid.push(left_node@));
        }
        self.update_children_parent_offset(n as u32);
        let ghost t2 = self@;
        self.0.push(right_node);
        proof {
            assert(self@ =~= t2.push(right_node@));
        }
        self.update_children_parent_offset((n + 1) as u32);
        proof {
            let target = spec_internal_split(t, parent_page_num as int);
            let sp = split_at_index as int;
            let leftv = NodeV {
                node_type: NodeType::Internal,
                is_root: false,
                parent_offset: parent_page_num as u32,
                num_of_cells: sp as u32,
                cells: Seq::empty(),
                next_leaf_offset: 0,
                internal_cells: c.take(sp),
                right_child_offset: c[sp].child,
            };
            let rightv = NodeV {
                node_type: NodeType::Internal,
                is_root: false,
                parent_offset: parent_page_num as u32,
                num_of_cells: (c.len() - sp - 1) as u32,
                cells: Seq::empty(),
                next_leaf_offset: 0,
                internal_cells: c.skip(sp + 1),
                right_child_offset: t[parent_page_num as int].right_child_offset,
            };
            assert(left_node@ =~= leftv);
            assert(right_node@ =~= rightv);
            assert forall|q: int| 0 <= q < target.len() implies self@[q] == target[q] by {
                if q == parent_page_num {
                    assert(self@[q] =~= target[q]);
                } else if q == n {
                    assert(self@[q] =~= target[q]);
                } else if q == n + 1 {
                    assert(self@[q] =~= target[q]);
                } else if is_child_ptr(rightv, q) {
                    assert(self@[q] =~= reparent(t[q], n + 1));
                } else if is_child_ptr(leftv, q) {
                    assert(self@[q] =~= reparent(t[q], n as int));
                } else {
                    assert(self@[q] =~= t[q]);
                }
            }
            assert(self@ =~= target);
        }
    }

    /// Descends from `page` toward the leaf where `key` belongs, stepping
    /// through at most `fuel` internal nodes.
    pub open spec fn spec_descend(t: Seq<NodeV>, key: u32, page: int, fuel: nat) -> int
        decreases fuel,
    {
        if fuel == 0 || t[page].is_leaf() {
            page
        } else {
            let idx = insertion_index(t[page].internal_keys(), key);
            let next = if idx < t[page].internal_cells.len() {
                t[page].internal_cells[idx].child as int
            } else {
                t[page].right_child_offset as int
            };
            Self::spec_descend(t, key, next, (fuel - 1) as nat)
        }
    }

    /// Walks from the root to the page where `key` belongs, picking the
    /// child subtree by binary search at each internal level, and returns
    /// the insertion position inside that page.
    pub fn find(&self, key: u32) -> (cursor: Cursor)
        requires
            nav_wf(self@),
        ensures
            cursor.page_num < self@.len(),
            cursor.page_num == Self::spec_descend(self@, key, 0, self@.len() as nat),
            self@[cursor.page_num as int].is_leaf() ==> cursor.cell_num == insertion_index(
                self@[cursor.page_num as int].leaf_keys(),
                key,
            ) && cursor.cell_num <= self@[cursor.page_num as int].cells.len(),
            !self@[cursor.page_num as int].is_leaf() ==> cursor.cell_num == 0,
    {
        let ghost t = self@;
        let n = self.0.len();
        let mut page_num: usize = 0;
        let mut steps: usize = 0;
        proof {
            assert(t[0] == self.0@[0]@);
        }
        while steps < n && self.0[page_num].node_type == NodeType::Internal
            invariant
                nav_wf(t),
                t == self@,
                n == t.len(),
                0 <= steps <= n,
                page_num < n,
                Self::spec_descend(t, key, 0, n as nat) == Self::spec_descend(
                    t,
                    key,
                    page_num as int,
                    (n - steps) as nat,
                ),
            decreases n - steps,
        {
            let node = &self.0[page_num];
            proof {
                assert(node@ == t[page_num as int]);
            }
            let idx = node.internal_search(key);
            let next = if idx < node.internal_cells.len() {
                node.internal_cells[idx].child as usize
            } else {
                node.right_child_offset as usize
            };
            proof {
                assert(Self::spec_descend(t, key, page_num as int, (n - steps) as nat)
                    == Self::spec_descend(t, key, next as int, (n - steps - 1) as nat));
            }
            page_num = next;
            steps = steps + 1;
        }
        proof {
            assert(t[page_num as int] == self.0@[page_num as int]@);
            if steps < n {
                assert(t[page_num as int].is_leaf());
            }
            assert(Self::spec_descend(t, key, page_num as int, (n - steps) as nat) == page_num
                as int);
        }
        if self.0[page_num].node_type == NodeType::Leaf {
            let cell_num = self.0[page_num].leaf_search(key);
            Cursor { page_num, cell_num }
        } else {
            Cursor { page_num, cell_num: 0 }
        }
    }

    /// Splits a full leaf while inserting one more row: the existing page
    /// keeps the larger half of the keys (preserving references to it), a
    /// new node holding the smaller keys becomes its left sibling, sibling
    /// links are rethreaded, and the new node is registered with the parent,
    /// which splits in turn if it overflows. A root leaf is split through
    /// root promotion instead.
    #[verifier::loop_isolation(false)]
    #[verifier::rlimit(60)]
    pub fn split_and_insert_leaf_node(&mut self, cursor: &Cursor, row: &Row)
        requires
            nav_wf(old(self)@),
            split_leaf_pre(old(self)@, cursor.page_num as int, cursor.cell_num as int, row@),
            !old(self)@[cursor.page_num as int].is_root ==> split_parent_pre(
                old(self)@,
                cursor.page_num as int,
                row@,
            ),
        ensures
            final(self)@ == spec_split_result(
                old(self)@,
                cursor.page_num as int,
                cursor.cell_num as int,
                row@,
            ),
            nav_wf(final(self)@),
    {
        let ghost t = old(self)@;
        let pn = cursor.page_num;
        let n = self.0.len();
        let ghost inserted = inserted_cells(t[pn as int], cursor.cell_num as int, row@);
        let ghost lo = inserted.take(LEAF_NODE_LEFT_SPLIT_COUNT as int);
        let ghost hi = inserted.skip(LEAF_NODE_LEFT_SPLIT_COUNT as int);
        proof {
            assert(t[pn as int] == self.0@[pn as int]@);
        }
        let is_root = self.0[pn].is_root;
        let parent_page_num = self.0[pn].parent_offset as usize;
        let ghost old_max = t[pn as int].cells.last().key;
        if !is_root {
            // rethread the sibling chain: whatever linked to this page now
            // links to the coming left node
            let mut q: usize = 0;
            while q < n
                invariant
                    n == t.len(),
                    n == self@.len(),
                    0 <= q <= n,
                    forall|p: int|
                        0 <= p < q ==> self@[p] == spec_sibling_repair(t, pn as int, n as int)[p],
                    forall|p: int| q <= p < n ==> self@[p] == t[p],
            decreases n - q,
            {
                let ghost prev_vec = self.0@;
                let ghost prev = self@;
                proof {
                    assert(self@[q as int] == self.0@[q as int]@);
                }
                let is_hit = self.0[q].node_type == NodeType::Leaf && self.0[q].next_leaf_offset
                    == pn as u32;
                proof {
                    assert(is_hit == (t[q as int].is_leaf() && t[q as int].next_leaf_offset == pn));
                }
                if is_hit {
                    let nd = &mut self.0[q];
                    nd.next_leaf_offset = n as u32;
                }
                proof {
                    assert forall|p: int|
                        0 <= p < q + 1 implies self@[p] == spec_sibling_repair(
                        t,
                        pn as int,
                        n as int,
                    )[p] by {
                        assert(self@[p] == self.0@[p]@);
                        assert(prev[p] == prev_vec[p]@);
                        if p == q {
                            if is_hit {
                                assert(self@[p] =~= (NodeV {
                                    next_leaf_offset: n as u32,
                                    ..t[p]
                                }));
                            } else {
                                assert(self.0@[p] == prev_vec[p]);
                            }
                        } else {
                            assert(self.0@[p] == prev_vec[p]);
                        }
                    }
                    assert forall|p: int| q + 1 <= p < n implies self@[p] == t[p] by {
                        assert(self.0@[p] == prev_vec[p]);
                        assert(self@[p] == self.0@[p]@);
                        assert(prev[p] == prev_vec[p]@);
                    }
                }
                q = q + 1;
            }
            proof {
                assert(self@ =~= spec_sibling_repair(t, pn as int, n as int));
            }
        }
        let ghost t1 = self@;
        // insert the row into the full page, then move the lower half of its
        // cells into the new left node
        let old_max_read = self.0[pn].get_max_key();
        {
            let ghost prev_vec = self.0@;
            let right = &mut self.0[pn];
            right.insert(row, cursor);
            proof {
                assert forall|p: int| 0 <= p < t.len() && p != pn implies self@[p] == t1[p] by {
                    assert(self.0@[p] == prev_vec[p]);
                    assert(self@[p] == self.0@[p]@);
                }
                assert(self@[pn as int].cells =~= inserted);
            }
        }
        let mut left_node = Node::new(false, NodeType::Leaf);
        let mut i: usize = 0;
        while i < LEAF_NODE_LEFT_SPLIT_COUNT
            invariant
                0 <= i <= LEAF_NODE_LEFT_SPLIT_COUNT,
                inserted.len() == LEAF_NODE_MAX_CELLS + 1,
                pn < t.len(),
                t.len() == t1.len() == self@.len(),
                self@[pn as int] == (NodeV {
                    num_of_cells: (LEAF_NODE_MAX_CELLS + 1 - i) as u32,
                    cells: inserted.skip(i as int),
                    ..t1[pn as int]
                }),
                forall|p: int| 0 <= p < t.len() && p != pn ==> self@[p] == t1[p],
                left_node@ == (NodeV {
                    node_type: NodeType::Leaf,
                    is_root: false,
                    parent_offset: 0,
                    num_of_cells: i as u32,
                    cells: inserted.take(i as int),
                    next_leaf_offset: 0,
                    internal_cells: Seq::<InternalCell>::empty(),
                    right_child_offset: 0,
                }),
            decreases LEAF_NODE_LEFT_SPLIT_COUNT - i,
        {
            let ghost prev_vec = self.0@;
            let ghost prev = self@;
            let ghost lprev = left_node@;
            let ghost lvec = left_node.cells@;
            proof {
                assert(prev[pn as int] == prev_vec[pn as int]@);
                assert(prev_vec[pn as int].cells@.len() == prev[pn as int].cells.len());
            }
            let cell = self.0[pn].cells.remove(0);
            let m = self.0[pn].num_of_cells;
            self.0[pn].num_of_cells = m - 1;
            left_node.cells.push(cell);
            let lm = left_node.num_of_cells;
            left_node.num_of_cells = lm + 1;
            i = i + 1;
            proof {
                assert(self@[pn as int] == self.0@[pn as int]@);
                assert(cell@ == prev[pn as int].cells[0]);
                assert forall|k: int|
                    0 <= k < self@[pn as int].cells.len() implies self@[pn as int].cells[k]
                    == inserted.skip(i as int)[k] by {
                    assert(self.0@[pn as int].cells@[k] == prev_vec[pn as int].cells@[k + 1]);
                    assert(self@[pn as int].cells[k] == self.0@[pn as int].cells@[k]@);
                    assert(prev[pn as int].cells[k + 1] == prev_vec[pn as int].cells@[k + 1]@);
                    assert(prev[pn as int].cells[k + 1] == inserted.skip(i - 1)[k + 1]);
                }
                assert(left_node.cells@ == lvec.push(cell));
                assert(lprev.cells.len() == lvec.len());
                assert(lvec.len() == i - 1);
                assert forall|k: int|
                    0 <= k < left_node@.cells.len() implies left_node@.cells[k] == inserted.take(
                    i as int,
                )[k] by {
                    assert(left_node@.cells[k] == left_node.cells@[k]@);
                    if k < i - 1 {
                        assert(left_node.cells@[k] == lvec[k]);
                        assert(lvec[k]@ == lprev.cells[k]);
                        assert(lprev.cells[k] == inserted.take(i - 1)[k]);
                    } else {
                        assert(left_node.cells@[k] == cell);
                        assert(cell@ == inserted.skip(i - 1)[0]);
                    }
                }
                assert(self@[pn as int].cells =~= inserted.skip(i as int));
                assert(self@[pn as int] =~= (NodeV {
                    num_of_cells: (LEAF_NODE_MAX_CELLS + 1 - i) as u32,
                    cells: inserted.skip(i as int),
                    ..t1[pn as int]
                }));
                assert(left_node@.cells =~= inserted.take(i as int));
                assert(left_node@ =~= (NodeV {
                    node_type: NodeType::Leaf,
                    is_root: false,
                    parent_offset: 0,
                    num_of_cells: i as u32,
                    cells: inserted.take(i as int),
                    next_leaf_offset: 0,
                    internal_cells: Seq::<InternalCell>::empty(),
                    right_child_offset: 0,
                }));
                assert forall|p: int| 0 <= p < t.len() && p != pn implies self@[p] == t1[p] by {
                    assert(self.0@[p] == prev_vec[p]);
                    assert(self@[p] == self.0@[p]@);
                }
            }
        }
        proof {
            assert(self@[pn as int] =~= (NodeV {
                num_of_cells: LEAF_NODE_RIGHT_SPLIT_COUNT as u32,
                cells: hi,
                ..t1[pn as int]
            }));
        }
        if is_root {
            proof {
                assert(t1 == t);
                assert(self@ =~= t.update(pn as int, (NodeV {
                    num_of_cells: LEAF_NODE_RIGHT_SPLIT_COUNT as u32,
                    cells: hi,
                    ..t[pn as int]
                })));
                assert(lo.len() == LEAF_NODE_LEFT_SPLIT_COUNT);
            }
            self.create_new_root(pn, left_node);
            proof {
                assert(final(self)@ =~= spec_split_result(
                    t,
                    cursor.page_num as int,
                    cursor.cell_num as int,
                    row@,
                ));
                lemma_split_result_wf(t, cursor.page_num as int, cursor.cell_num as int, row@);
            }
        } else {
            left_node.next_leaf_offset = pn as u32;
            left_node.parent_offset = parent_page_num as u32;
            let new_max = self.0[pn].get_max_key();
            let ghost t2pre = self@;
            let ghost prev_vec = self.0@;
            proof {
                assert(t2pre[parent_page_num as int] == t1[parent_page_num as int]);
                assert(t1[parent_page_num as int] == t[parent_page_num as int]);
                assert(prev_vec[parent_page_num as int]@ == t2pre[parent_page_num as int]);
            }
            {
                let parent = &mut self.0[parent_page_num];
                parent.update_internal_key(old_max_read, new_max);
            }
            proof {
                // the kept page holds the larger keys, so its maximum is
                // unchanged wherever a parent cell carries it, and the
                // rewrite leaves the parent as it was
                let pv = t[parent_page_num as int];
                assert(prev_vec[parent_page_num as int]@ == pv);
                assert(hi.last() == inserted.last());
                assert(old_max_read == old_max);
                if pv.internal_keys().contains(old_max) {
                    assert(inserted.last() == t[pn as int].cells.last()) by {
                        if cursor.cell_num == LEAF_NODE_MAX_CELLS {
                            assert(t[pn as int].cells[LEAF_NODE_MAX_CELLS - 1].key < row@.id);
                            assert(false);
                        } else {
                            assert(inserted.last() == t[pn as int].cells.last());
                        }
                    }
                    assert(new_max == old_max);
                    let w = choose|w: int|
                        {
                            &&& 0 <= w < pv.internal_cells.len()
                            &&& pv.internal_cells[w].key == old_max
                            &&& (forall|k: int| 0 <= k < w ==> pv.internal_cells[k].key != old_max)
                            &&& self@[parent_page_num as int] == (NodeV {
                                internal_cells: pv.internal_cells.update(
                                    w,
                                    InternalCell { child: pv.internal_cells[w].child, key: new_max },
                                ),
                                ..pv
                            })
                        };
                    assert(pv.internal_cells.update(
                        w,
                        InternalCell { child: pv.internal_cells[w].child, key: new_max },
                    ) =~= pv.internal_cells);
                    assert(self@[parent_page_num as int] =~= pv);
                } else {
                    assert(self@[parent_page_num as int] == pv);
                }
                assert forall|p: int| 0 <= p < t.len() implies self@[p] == t2pre[p] by {
                    assert(self@[p] == self.0@[p]@);
                    if p != parent_page_num {
                        assert(self.0@[p] == prev_vec[p]);
                    } else {
                        assert(t2pre[p] == pv);
                    }
                }
                assert(self@ =~= t2pre);
            }
            self.0.push(left_node);
            let ghost t3 = self@;
            proof {
                assert(t3 =~= spec_leaf_split_pages(t, pn as int, cursor.cell_num as int, row@));
                assert(t3[parent_page_num as int] == t[parent_page_num as int]);
                assert(t3[n as int] == left_node@);
                let rc = t3[parent_page_num as int].right_child_offset as int;
                assert(rc == t[parent_page_num as int].right_child_offset as int);
                if rc == pn as int {
                    assert(t3[rc].is_leaf() && t3[rc].cells.len() > 0);
                } else {
                    assert(t3[rc].cells == t[rc].cells);
                    assert(t3[rc].is_leaf() && t3[rc].cells.len() > 0);
                }
            }
            self.insert_internal_node(parent_page_num, n);
            let ghost t4 = self@;
            proof {
                let pr = parent_page_num as int;
                let ic3 = t3[pr].internal_cells;
                let ic4 = t4[pr].internal_cells;
                let nm = t3[n as int].cells.last().key;
                let idx = insertion_index(t3[pr].internal_keys(), nm);
                crate::node::lemma_insertion_index_bounds(t3[pr].internal_keys(), nm);
                let newc = if nm > t3[t3[pr].right_child_offset as int].cells.last().key {
                    InternalCell {
                        child: t3[pr].right_child_offset,
                        key: t3[t3[pr].right_child_offset as int].cells.last().key,
                    }
                } else {
                    InternalCell { child: n as u32, key: nm }
                };
                assert(ic4 == ic3.insert(idx, newc));
                assert(ic4.len() == ic3.len() + 1);
                assert(t4[pr].num_of_cells == ic4.len());
                assert forall|w: int| 0 <= w < ic4.len() implies (#[trigger] ic4[w]).child
                    < t4.len() && ic4[w].child != pr by {
                    if w < idx {
                        assert(ic4[w] == ic3[w]);
                        assert(ic3[w].child < t.len() && ic3[w].child != pr);
                    } else if w == idx {
                        assert(ic4[w] == newc);
                    } else {
                        assert(ic4[w] == ic3[w - 1]);
                        assert(ic3[w - 1].child < t.len() && ic3[w - 1].child != pr);
                    }
                }
                assert(!is_child_ptr(t4[pr], pr)) by {
                    if is_child_ptr(t4[pr], pr) {
                        if t4[pr].right_child_offset == pr {
                            assert(false);
                        } else {
                            let w = choose|w: int|
                                0 <= w < ic4.len() && (#[trigger] ic4[w]).child == pr;
                            assert(false);
                        }
                    }
                }
                assert(ptrs_ok(t4[pr], t4.len() as int));
            }
            self.maybe_split_internal_node(parent_page_num);
            proof {
                assert(final(self)@ =~= spec_split_result(
                    t,
                    cursor.page_num as int,
                    cursor.cell_num as int,
                    row@,
                ));
                lemma_split_result_wf(t, cursor.page_num as int, cursor.cell_num as int, row@);
            }
        }
    }

    /// Two spaces per indent level.
    pub open spec fn spec_indent(level: nat) -> Seq<char>
        decreases level,
    {
        if level == 0 {
            Seq::empty()
        } else {
            Self::spec_indent((level - 1) as nat) + "  "@
        }
    }

    /// One line per live leaf cell, from cell `j` on; tombstoned cells are
    /// not shown.
    pub open spec fn spec_leaf_lines(cells: Seq<CellV>, j: int, indent: nat) -> Seq<char>
        decreases cells.len() - j,
    {
        if j < 0 || j >= cells.len() {
            Seq::empty()
        } else {
            (if !cells[j].deleted {
                Self::spec_indent(indent + 1) + "- "@ + dec_str(cells[j].key as nat) + "\n"@
            } else {
                Seq::empty()
            }) + Self::spec_leaf_lines(cells, j + 1, indent)
        }
    }

    /// The rendering of the page `page` points at, stepping through at most
    /// `fuel` levels; a missing page renders as nothing.
    pub open spec fn spec_render_page(t: Seq<NodeV>, page: int, indent: nat, fuel: nat) -> Seq<
        char,
    >
        decreases fuel, 0int, 0int,
    {
        if fuel == 0 || !(0 <= page < t.len()) {
            Seq::empty()
        } else {
            Self::spec_render_node(t, t[page], indent, (fuel - 1) as nat)
        }
    }

    /// Each internal cell's child subtree followed by its separating key.
    pub open spec fn spec_render_cells(t: Seq<NodeV>, node: NodeV, j: int, indent: nat, fuel: nat) -> Seq<
        char,
    >
        decreases fuel, 1int, node.internal_cells.len() - j,
    {
        if j < 0 || j >= node.internal_cells.len() {
            Seq::empty()
        } else {
            Self::spec_render_page(t, node.internal_cells[j].child as int, indent + 1, fuel)
                + Self::spec_indent(indent + 1) + "- key "@ + dec_str(
                node.internal_cells[j].key as nat,
            ) + "\n"@ + Self::spec_render_cells(t, node, j + 1, indent, fuel)
        }
    }

    /// An indented, depth-first rendering: an internal node prints its size,
    /// each child subtree followed by its key, then the rightmost child; a
    /// leaf prints its size and each cell's key.
    pub open spec fn spec_render_node(t: Seq<NodeV>, node: NodeV, indent: nat, fuel: nat) -> Seq<
        char,
    >
        decreases fuel, 2int, 0int,
    {
        if !node.is_leaf() {
            Self::spec_indent(indent) + "- internal (size "@ + dec_str(node.num_of_cells as nat)
                + ")\n"@ + Self::spec_render_cells(t, node, 0, indent, fuel)
                + Self::spec_render_page(t, node.right_child_offset as int, indent + 1, fuel)
        } else {
            Self::spec_indent(indent) + "- leaf (size "@ + dec_str(node.num_of_cells as nat)
                + ")\n"@ + Self::spec_leaf_lines(node.cells, 0, indent)
        }
    }

    fn indent_str(level: usize) -> (r: String)
        ensures
            r@ == Self::spec_indent(level as nat),
        decreases level,
    {
        if level == 0 {
            let r = String::new();
            proof {
                assert(r@ =~= Self::spec_indent(0));
            }
            r
        } else {
            let mut r = Self::indent_str(level - 1);
            r.append("  ");
            r
        }
    }

    fn leaf_lines(cells: &Vec<Cell>, j: usize, indent: usize) -> (r: String)
        requires
            j <= cells@.len(),
            indent < usize::MAX,
        ensures
            r@ == Self::spec_leaf_lines(cells.deep_view(), j as int, indent as nat),
        decreases cells@.len() - j,
    {
        if j >= cells.len() {
            let r = String::new();
            proof {
                assert(r@ =~= Self::spec_leaf_lines(cells.deep_view(), j as int, indent as nat));
            }
            r
        } else {
            proof {
                assert(cells.deep_view()[j as int] == cells@[j as int]@);
            }
            let mut r = if !cells[j].deleted {
                let mut line = Self::indent_str(indent + 1);
                line.append("- ");
                line.append(u32_to_string(cells[j].key).as_str());
                line.append("\n");
                line
            } else {
                String::new()
            };
            let rest = Self::leaf_lines(cells, j + 1, indent);
            r.append(rest.as_str());
            proof {
                assert(r@ =~= Self::spec_leaf_lines(cells.deep_view(), j as int, indent as nat));
            }
            r
        }
    }

    fn render_page(&self, page: usize, indent: usize, fuel: usize) -> (r: String)
        requires
            indent + fuel <= usize::MAX,
        ensures
            r@ == Self::spec_render_page(self@, page as int, indent as nat, fuel as nat),
        decreases fuel, 0int, 0int,
    {
        if fuel == 0 || page >= self.0.len() {
            let r = String::new();
            proof {
                assert(r@ =~= Self::spec_render_page(
                    self@,
                    page as int,
                    indent as nat,
                    fuel as nat,
                ));
            }
            r
        } else {
            proof {
                assert(self@[page as int] == self.0@[page as int]@);
            }
            let node = &self.0[page];
            Self::render_node_rec(self, node, indent, fuel - 1)
        }
    }

    fn render_cells(&self, node: &Node, j: usize, indent: usize, fuel: usize) -> (r: String)
        requires
            j <= node@.internal_cells.len(),
            indent + fuel + 1 <= usize::MAX,
        ensures
            r@ == Self::spec_render_cells(self@, node@, j as int, indent as nat, fuel as nat),
        decreases fuel, 1int, node@.internal_cells.len() - j,
    {
        if j >= node.internal_cells.len() {
            let r = String::new();
            proof {
                assert(r@ =~= Self::spec_render_cells(
                    self@,
                    node@,
                    j as int,
                    indent as nat,
                    fuel as nat,
                ));
            }
            r
        } else {
            let mut r = self.render_page(node.internal_cells[j].child as usize, indent + 1, fuel);
            r.append(Self::indent_str(indent + 1).as_str());
            r.append("- key ");
            r.append(u32_to_string(node.internal_cells[j].key).as_str());
            r.append("\n");
            let rest = self.render_cells(node, j + 1, indent, fuel);
            r.append(rest.as_str());
            proof {
                assert(r@ =~= Self::spec_render_cells(
                    self@,
                    node@,
                    j as int,
                    indent as nat,
                    fuel as nat,
                ));
            }
            r
        }
    }

    fn render_node_rec(&self, node: &Node, indent: usize, fuel: usize) -> (r: String)
        requires
            indent + fuel + 1 <= usize::MAX,
        ensures
            r@ == Self::spec_render_node(self@, node@, indent as nat, fuel as nat),
        decreases fuel, 2int, 0int,
    {
        let mut r = Self::indent_str(indent);
        if node.node_type == NodeType::Internal {
            r.append("- internal (size ");
            r.append(u32_to_string(node.num_of_cells).as_str());
            r.append(")\n");
            let cells = self.render_cells(node, 0, indent, fuel);
            r.append(cells.as_str());
            let rc = self.render_page(node.right_child_offset as usize, indent + 1, fuel);
            r.append(rc.as_str());
        } else {
            r.append("- leaf (size ");
            r.append(u32_to_string(node.num_of_cells).as_str());
            r.append(")\n");
            let lines = Self::leaf_lines(&node.cells, 0, indent);
            r.append(lines.as_str());
            proof {
                assert(node@.cells =~= node.cells.deep_view());
            }
        }
        proof {
            assert(r@ =~= Self::spec_render_node(self@, node@, indent as nat, fuel as nat));
        }
        r
    }

    /// Renders `node` and everything below it, indented two spaces per
    /// level. Purely diagnostic; no mutation.
    pub fn node_to_string(&self, node: &Node, indent_level: usize) -> (r: String)
        requires
            indent_level + self@.len() + 1 <= usize::MAX,
        ensures
            r@ == Self::spec_render_node(
                self@,
                node@,
                indent_level as nat,
                self@.len() as nat,
            ),
    {
        proof {
            assert(self@.len() == self.0@.len());
        }
        self.render_node_rec(node, indent_level, self.0.len())
    }

    /// The textual dump of the whole tree, starting at the root page.
    pub fn to_string(&self) -> (r: String)
        requires
            self@.len() >= 1,
            self@.len() < usize::MAX,
        ensures
            r@ == Self::spec_render_node(self@, self@[0], 0, self@.len() as nat),
    {
        proof {
            assert(self@[0] == self.0@[0]@);
        }
        let node = &self.0[0];
        self.node_to_string(node, 0)
    }
}

} // verus!
