//! A single tree page: either a Leaf holding ordered key→row cells with a
//! sibling link, or an Internal node holding ordered key→child cells plus a
//! distinguished rightmost child.

use vstd::prelude::*;
use crate::row::{Row, RowV};

verus! {

#[derive(Clone, Copy, Debug, PartialEq, Eq, Structural)]
pub enum NodeType {
    Leaf,
    Internal,
}

/// Leaf capacity: the cells that fit in one fixed-size page.
pub const LEAF_NODE_MAX_CELLS: usize = 13;

/// Cells moved to the new node holding the smaller keys when a leaf splits.
pub const LEAF_NODE_LEFT_SPLIT_COUNT: usize = 7;

/// Cells kept by the existing node, which retains the larger keys.
pub const LEAF_NODE_RIGHT_SPLIT_COUNT: usize = 7;

/// An internal node is split as soon as its cell count exceeds this.
pub const INTERNAL_NODE_MAX_CELLS: usize = 3;

/// A transient position produced by a search: the page and the cell slot
/// within it where one insert or lookup takes place.
#[derive(Clone, Copy, Debug)]
pub struct Cursor {
    pub page_num: usize,
    pub cell_num: usize,
}

/// One leaf entry. A tombstoned entry (`deleted`) was removed logically but
/// keeps its page slot, so an abort can restore it.
#[derive(Debug)]
pub struct Cell {
    pub key: u32,
    pub row: Row,
    pub deleted: bool,
}

/// The mathematical value of a leaf cell.
#[verifier::ext_equal]
pub struct CellV {
    pub key: u32,
    pub row: RowV,
    pub deleted: bool,
}

impl View for Cell {
    type V = CellV;

    open spec fn view(&self) -> CellV {
        CellV { key: self.key, row: self.row@, deleted: self.deleted }
    }
}

impl DeepView for Cell {
    type V = CellV;

    open spec fn deep_view(&self) -> CellV {
        self@
    }
}

/// One internal entry: a child page and the maximum key of that child's
/// subtree.
#[derive(Clone, Copy, Debug, PartialEq, Eq, Structural)]
pub struct InternalCell {
    pub child: u32,
    pub key: u32,
}

impl InternalCell {
    pub fn new(child_pointer: u32, key: u32) -> (c: InternalCell)
        ensures
            c == (InternalCell { child: child_pointer, key }),
    {
        InternalCell { child: child_pointer, key }
    }

    pub fn child_pointer(&self) -> (r: u32)
        ensures
            r == self.child,
    {
        self.child
    }

    pub fn key(&self) -> (r: u32)
        ensures
            r == self.key,
    {
        self.key
    }
}

/// The slot where `key` belongs in an ascending key run: the index of the
/// first key at or above it.
pub open spec fn insertion_index(keys: Seq<u32>, key: u32) -> int
    decreases keys.len(),
{
    if keys.len() == 0 {
        0
    } else if keys[0] >= key {
        0
    } else {
        1 + insertion_index(keys.drop_first(), key)
    }
}

pub proof fn lemma_insertion_index_bounds(keys: Seq<u32>, key: u32)
    ensures
        0 <= insertion_index(keys, key) <= keys.len(),
    decreases keys.len(),
{
    if keys.len() > 0 && keys[0] < key {
        lemma_insertion_index_bounds(keys.drop_first(), key);
    }
}

/// An index with everything before it below `key` and everything from it on
/// at or above `key` is the insertion index.
pub proof fn lemma_index_from_bounds(keys: Seq<u32>, key: u32, i: int)
    requires
        0 <= i <= keys.len(),
        forall|k: int| 0 <= k < i ==> keys[k] < key,
        forall|k: int| i <= k < keys.len() ==> keys[k] >= key,
    ensures
        i == insertion_index(keys, key),
    decreases keys.len(),
{
    if keys.len() == 0 {
    } else if keys[0] >= key {
        assert(i == 0) by {
            if i > 0 {
                assert(keys[0] < key);
            }
        }
    } else {
        assert(i > 0);
        let rest = keys.drop_first();
        assert forall|k: int| 0 <= k < i - 1 implies rest[k] < key by {
            assert(rest[k] == keys[k + 1]);
        }
        assert forall|k: int| i - 1 <= k < rest.len() implies rest[k] >= key by {
            assert(rest[k] == keys[k + 1]);
        }
        lemma_index_from_bounds(rest, key, i - 1);
    }
}

/// In an ascending key run, the insertion index splits the keys into those
/// below `key` and those at or above it.
pub proof fn lemma_insertion_index_props(keys: Seq<u32>, key: u32)
    requires
        forall|i: int, j: int| 0 <= i < j < keys.len() ==> keys[i] < keys[j],
    ensures
        0 <= insertion_index(keys, key) <= keys.len(),
        forall|k: int| 0 <= k < insertion_index(keys, key) ==> keys[k] < key,
        forall|k: int| insertion_index(keys, key) <= k < keys.len() ==> keys[k] >= key,
    decreases keys.len(),
{
    if keys.len() == 0 {
    } else if keys[0] >= key {
        assert forall|k: int| 0 <= k < keys.len() implies keys[k] >= key by {
            if k > 0 {
                assert(keys[0] < keys[k]);
            }
        }
    } else {
        let rest = keys.drop_first();
        assert forall|i: int, j: int| 0 <= i < j < rest.len() implies rest[i] < rest[j] by {
            assert(rest[i] == keys[i + 1] && rest[j] == keys[j + 1]);
        }
        lemma_insertion_index_props(rest, key);
        let ii = insertion_index(keys, key);
        assert(ii == 1 + insertion_index(rest, key));
        assert forall|k: int| 0 <= k < ii implies keys[k] < key by {
            if k > 0 {
                assert(rest[k - 1] == keys[k]);
            }
        }
        assert forall|k: int| ii <= k < keys.len() implies keys[k] >= key by {
            assert(rest[k - 1] == keys[k]);
        }
    }
}

/// A tree page.
#[derive(Debug)]
pub struct Node {
    pub node_type: NodeType,
    pub is_root: bool,
    pub parent_offset: u32,
    pub num_of_cells: u32,
    pub cells: Vec<Cell>,
    pub next_leaf_offset: u32,
    pub internal_cells: Vec<InternalCell>,
    pub right_child_offset: u32,
}

/// The mathematical value of a page.
#[verifier::ext_equal]
pub struct NodeV {
    pub node_type: NodeType,
    pub is_root: bool,
    pub parent_offset: u32,
    pub num_of_cells: u32,
    pub cells: Seq<CellV>,
    pub next_leaf_offset: u32,
    pub internal_cells: Seq<InternalCell>,
    pub right_child_offset: u32,
}

impl DeepView for Node {
    type V = NodeV;

    open spec fn deep_view(&self) -> NodeV {
        self@
    }
}

impl View for Node {
    type V = NodeV;

    open spec fn view(&self) -> NodeV {
        NodeV {
            node_type: self.node_type,
            is_root: self.is_root,
            parent_offset: self.parent_offset,
            num_of_cells: self.num_of_cells,
            cells: self.cells.deep_view(),
            next_leaf_offset: self.next_leaf_offset,
            internal_cells: self.internal_cells@,
            right_child_offset: self.right_child_offset,
        }
    }
}

impl NodeV {
    pub open spec fn is_leaf(self) -> bool {
        self.node_type is Leaf
    }

    /// The keys of a leaf's cells, in cell order.
    pub open spec fn leaf_keys(self) -> Seq<u32> {
        self.cells.map_values(|c: CellV| c.key)
    }

    /// The keys of an internal node's cells, in cell order.
    pub open spec fn internal_keys(self) -> Seq<u32> {
        self.internal_cells.map_values(|c: InternalCell| c.key)
    }

    /// Leaf cells are sorted strictly ascending by key, and each cell is
    /// keyed by its row's id.
    pub open spec fn leaf_sorted(self) -> bool {
        &&& (forall|i: int, j: int|
            0 <= i < j < self.cells.len() ==> #[trigger] self.cells[i].key
                < #[trigger] self.cells[j].key)
        &&& (forall|i: int|
            0 <= i < self.cells.len() ==> (#[trigger] self.cells[i]).row.id == self.cells[i].key
                && self.cells[i].row.wf())
    }

    /// Internal cells are sorted strictly ascending by key.
    pub open spec fn internal_sorted(self) -> bool {
        forall|i: int, j: int|
            0 <= i < j < self.internal_cells.len() ==> #[trigger] self.internal_cells[i].key
                < #[trigger] self.internal_cells[j].key
    }

    /// A page's local well-formedness: the recorded cell count matches the
    /// cells held, the cells of the other kind are absent, and the cells are
    /// sorted.
    pub open spec fn wf(self) -> bool {
        if self.is_leaf() {
            &&& self.num_of_cells == self.cells.len()
            &&& self.internal_cells.len() == 0
            &&& self.leaf_sorted()
        } else {
            &&& self.num_of_cells == self.internal_cells.len()
            &&& self.cells.len() == 0
            &&& self.internal_sorted()
        }
    }
}

impl Node {
    /// Constructs an empty Leaf or Internal page with no cells and no parent.
    pub fn new(is_root: bool, node_type: NodeType) -> (n: Node)
        ensures
            n@ == (NodeV {
                node_type,
                is_root,
                parent_offset: 0,
                num_of_cells: 0,
                cells: Seq::<CellV>::empty(),
                next_leaf_offset: 0,
                internal_cells: Seq::<InternalCell>::empty(),
                right_child_offset: 0,
            }),
            n@.wf(),
    {
        let n = Node {
            node_type,
            is_root,
            parent_offset: 0,
            num_of_cells: 0,
            cells: Vec::new(),
            next_leaf_offset: 0,
            internal_cells: Vec::new(),
            right_child_offset: 0,
        };
        proof {
            assert(n@.cells =~= Seq::<CellV>::empty());
            assert(n@.internal_cells =~= Seq::<InternalCell>::empty());
            assert(n@ =~= (NodeV {
                node_type,
                is_root,
                parent_offset: 0,
                num_of_cells: 0,
                cells: Seq::<CellV>::empty(),
                next_leaf_offset: 0,
                internal_cells: Seq::<InternalCell>::empty(),
                right_child_offset: 0,
            }));
        }
        n
    }

    /// Inserts `row` into this leaf at the slot the cursor names, shifting
    /// later cells up by one. The caller is responsible for splitting first
    /// when the page is full.
    pub fn insert(&mut self, row: &Row, cursor: &Cursor)
        requires
            old(self)@.is_leaf(),
            cursor.cell_num <= old(self)@.cells.len(),
            old(self).num_of_cells < u32::MAX,
        ensures
            final(self)@ == (NodeV {
                num_of_cells: (old(self).num_of_cells + 1) as u32,
                cells: old(self)@.cells.insert(
                    cursor.cell_num as int,
                    CellV { key: row.id, row: row@, deleted: false },
                ),
                ..old(self)@
            }),
    {
        self.cells.insert(cursor.cell_num, Cell { key: row.id, row: row.clone(), deleted: false });
        self.num_of_cells = self.num_of_cells + 1;
        proof {
            assert(self@.cells =~= old(self)@.cells.insert(
                cursor.cell_num as int,
                CellV { key: row.id, row: row@, deleted: false },
            ));
            assert(self@ =~= (NodeV {
                num_of_cells: (old(self).num_of_cells + 1) as u32,
                cells: old(self)@.cells.insert(
                    cursor.cell_num as int,
                    CellV { key: row.id, row: row@, deleted: false },
                ),
                ..old(self)@
            }));
        }
    }

    /// Binary search over the internal cells: the insertion index such that
    /// every cell before it has a key below `key`.
    pub fn internal_search(&self, key: u32) -> (index: usize)
        requires
            self@.internal_sorted(),
        ensures
            index <= self@.internal_cells.len(),
            index == insertion_index(self@.internal_keys(), key),
    {
        let mut lo: usize = 0;
        let mut hi: usize = self.internal_cells.len();
        while lo < hi
            invariant
                0 <= lo <= hi <= self@.internal_cells.len(),
                self@.internal_sorted(),
                forall|k: int| 0 <= k < lo ==> self@.internal_cells[k].key < key,
                forall|k: int|
                    hi <= k < self@.internal_cells.len() ==> self@.internal_cells[k].key >= key,
            decreases hi - lo,
        {
            let mid = lo + (hi - lo) / 2;
            if self.internal_cells[mid].key < key {
                lo = mid + 1;
            } else {
                hi = mid;
            }
        }
        proof {
            lemma_index_from_bounds(self@.internal_keys(), key, lo as int);
        }
        lo
    }

    /// Binary search over a leaf's cells: the insertion index such that
    /// every cell before it has a key below `key`.
    pub fn leaf_search(&self, key: u32) -> (index: usize)
        requires
            self@.leaf_sorted(),
        ensures
            index <= self@.cells.len(),
            index == insertion_index(self@.leaf_keys(), key),
    {
        let mut lo: usize = 0;
        let mut hi: usize = self.cells.len();
        while lo < hi
            invariant
                0 <= lo <= hi <= self@.cells.len(),
                self@.leaf_sorted(),
                forall|k: int| 0 <= k < lo ==> self@.cells[k].key < key,
                forall|k: int| hi <= k < self@.cells.len() ==> self@.cells[k].key >= key,
            decreases hi - lo,
        {
            let mid = lo + (hi - lo) / 2;
            proof {
                assert(self@.cells[mid as int] == self.cells@[mid as int]@);
            }
            if self.cells[mid].key < key {
                lo = mid + 1;
            } else {
                hi = mid;
            }
        }
        proof {
            lemma_index_from_bounds(self@.leaf_keys(), key, lo as int);
        }
        lo
    }

    /// The maximum key of a leaf: its last cell's key.
    pub fn get_max_key(&self) -> (r: u32)
        requires
            self@.is_leaf(),
            self@.cells.len() > 0,
            self@.num_of_cells == self@.cells.len(),
        ensures
            r == self@.cells.last().key,
    {
        self.cells[self.cells.len() - 1].key
    }

    /// Rewrites the cell keyed `old_max` (if any) to carry `new_max`; used
    /// when a child subtree's maximum key changes after a split. When the
    /// changed child is the rightmost one, no cell carries its key and
    /// nothing is rewritten.
    pub fn update_internal_key(&mut self, old_max: u32, new_max: u32)
        requires
            !old(self)@.is_leaf(),
        ensures
            !old(self)@.internal_keys().contains(old_max) ==> final(self)@ == old(self)@,
            old(self)@.internal_keys().contains(old_max) ==> exists|i: int|
                {
                    &&& 0 <= i < old(self)@.internal_cells.len()
                    &&& old(self)@.internal_cells[i].key == old_max
                    &&& (forall|k: int| 0 <= k < i ==> old(self)@.internal_cells[k].key != old_max)
                    &&& final(self)@ == (NodeV {
                        internal_cells: old(self)@.internal_cells.update(
                            i,
                            InternalCell {
                                child: old(self)@.internal_cells[i].child,
                                key: new_max,
                            },
                        ),
                        ..old(self)@
                    })
                },
    {
        let mut i: usize = 0;
        while i < self.internal_cells.len()
            invariant
                0 <= i <= self@.internal_cells.len(),
                self == old(self),
                forall|k: int| 0 <= k < i ==> self@.internal_cells[k].key != old_max,
            decreases self@.internal_cells.len() - i,
        {
            if self.internal_cells[i].key == old_max {
                let child = self.internal_cells[i].child;
                self.internal_cells.set(i, InternalCell { child, key: new_max });
                proof {
                    assert(old(self)@.internal_keys()[i as int] == old_max);
                    assert(old(self)@.internal_keys().contains(old_max));
                    assert(final(self)@ =~= (NodeV {
                        internal_cells: old(self)@.internal_cells.update(
                            i as int,
                            InternalCell {
                                child: old(self)@.internal_cells[i as int].child,
                                key: new_max,
                            },
                        ),
                        ..old(self)@
                    }));
                }
                return ;
            }
            i = i + 1;
        }
        proof {
            if old(self)@.internal_keys().contains(old_max) {
                let w = choose|i: int|
                    0 <= i < old(self)@.internal_keys().len() && old(self)@.internal_keys()[i]
                        == old_max;
                assert(self@.internal_cells[w].key != old_max);
                assert(false);
            }
        }
    }

    /// Inserts an internal cell at `index`, shifting later cells; the caller
    /// maintains the recorded cell count.
    pub fn internal_insert(&mut self, index: usize, cell: InternalCell)
        requires
            index <= old(self)@.internal_cells.len(),
        ensures
            final(self)@ == (NodeV {
                internal_cells: old(self)@.internal_cells.insert(index as int, cell),
                ..old(self)@
            }),
    {
        self.internal_cells.insert(index, cell);
        proof {
            assert(final(self)@ =~= (NodeV {
                internal_cells: old(self)@.internal_cells.insert(index as int, cell),
                ..old(self)@
            }));
        }
    }
}

} // verus!
