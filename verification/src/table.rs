//! The table: owns the tree and applies row operations to it, recording an
//! undo entry on the transaction for each physical mutation.

use vstd::prelude::*;
use crate::node::{
    insertion_index, lemma_insertion_index_props, Cell, CellV, Cursor, Node, NodeType, NodeV,
    LEAF_NODE_MAX_CELLS,
};
use crate::row::{Row, RowV};
use crate::query::Statement;
use crate::transaction::{Transaction, WriteRecord, WriteRecordType};
use crate::tree::{
    cell_of, nav_wf, spec_split_result, split_leaf_pre, split_parent_pre, Tree,
};

verus! {

#[derive(Clone, Copy, Debug, PartialEq, Eq, Structural)]
pub enum TableError {
    DuplicateKey,
    KeyNotFound,
}

/// Where a lookup of `key` lands: the page the descent reaches and the slot
/// the key would occupy there.
pub open spec fn spec_lookup_page(t: Seq<NodeV>, key: u32) -> int {
    Tree::spec_descend(t, key, 0, t.len() as nat)
}

pub open spec fn spec_lookup_slot(t: Seq<NodeV>, key: u32) -> int {
    insertion_index(t[spec_lookup_page(t, key)].leaf_keys(), key)
}

/// The lookup finds a cell carrying exactly `key`.
pub open spec fn spec_found(t: Seq<NodeV>, key: u32) -> bool {
    let pg = spec_lookup_page(t, key);
    let idx = spec_lookup_slot(t, key);
    &&& t[pg].is_leaf()
    &&& 0 <= idx < t[pg].cells.len()
    &&& t[pg].cells[idx].key == key
}

/// The lookup finds a live (not tombstoned) cell carrying `key`.
pub open spec fn spec_found_live(t: Seq<NodeV>, key: u32) -> bool {
    spec_found(t, key) && !t[spec_lookup_page(t, key)].cells[spec_lookup_slot(t, key)].deleted
}

/// The tree with the found cell for `key` rewritten to `cv`; unchanged when
/// nothing carries `key`.
pub open spec fn spec_set_found(t: Seq<NodeV>, key: u32, cv: CellV) -> Seq<NodeV> {
    if spec_found(t, key) {
        let pg = spec_lookup_page(t, key);
        let idx = spec_lookup_slot(t, key);
        t.update(pg, NodeV { cells: t[pg].cells.update(idx, cv), ..t[pg] })
    } else {
        t
    }
}

/// The found cell for `key` with its tombstone flag set to `deleted`.
pub open spec fn spec_mark(t: Seq<NodeV>, key: u32, deleted: bool) -> Seq<NodeV> {
    if spec_found(t, key) {
        let pg = spec_lookup_page(t, key);
        let idx = spec_lookup_slot(t, key);
        let c = t[pg].cells[idx];
        spec_set_found(t, key, CellV { deleted, ..c })
    } else {
        t
    }
}

/// The tree with the found cell for `key` removed outright, later cells in
/// its leaf shifted down; unchanged when nothing carries `key`.
pub open spec fn spec_erase(t: Seq<NodeV>, key: u32) -> Seq<NodeV> {
    if spec_found(t, key) {
        let pg = spec_lookup_page(t, key);
        let idx = spec_lookup_slot(t, key);
        t.update(
            pg,
            NodeV {
                num_of_cells: (t[pg].num_of_cells - 1) as u32,
                cells: t[pg].cells.remove(idx),
                ..t[pg]
            },
        )
    } else {
        t
    }
}

/// The tree after a row is inserted: a duplicate live key changes nothing; a
/// tombstoned cell with the key is revived with the new row; a leaf with
/// room takes the cell in place; a full leaf splits.
pub open spec fn spec_table_insert(t: Seq<NodeV>, row: RowV) -> Seq<NodeV> {
    let pg = spec_lookup_page(t, row.id);
    let idx = spec_lookup_slot(t, row.id);
    if spec_found(t, row.id) {
        if spec_found_live(t, row.id) {
            t
        } else {
            spec_set_found(t, row.id, cell_of(row))
        }
    } else if t[pg].cells.len() < LEAF_NODE_MAX_CELLS {
        t.update(
            pg,
            NodeV {
                num_of_cells: (t[pg].num_of_cells + 1) as u32,
                cells: t[pg].cells.insert(idx, cell_of(row)),
                ..t[pg]
            },
        )
    } else {
        spec_split_result(t, pg, idx, row)
    }
}

/// What an insert requires of the tree: navigability, and — only when the
/// row lands on a full non-root leaf — the structural facts about that
/// leaf's parent which a sound tree always provides.
pub open spec fn insert_pre(t: Seq<NodeV>, row: RowV) -> bool {
    let pg = spec_lookup_page(t, row.id);
    &&& nav_wf(t)
    &&& t.len() + 3 <= u32::MAX
    &&& row.wf()
    &&& t[pg].is_leaf()
    &&& t[pg].cells.len() <= LEAF_NODE_MAX_CELLS
    &&& (t[pg].is_root ==> pg == 0)
    &&& (t[pg].cells.len() >= LEAF_NODE_MAX_CELLS && !t[pg].is_root && !spec_found(t, row.id)
        ==> split_parent_pre(t, pg, row))
}

pub struct Table {
    pub tree: Tree,
}

impl Table {
    pub open spec fn wf(self) -> bool {
        nav_wf(self.tree@)
    }

    /// A table starts as a single empty root leaf.
    pub fn new() -> (t: Table)
        ensures
            t.wf(),
            t.tree@.len() == 1,
            t.tree@[0].is_leaf(),
            t.tree@[0].is_root,
            t.tree@[0].cells.len() == 0,
    {
        let mut tree = Tree::new();
        proof {
            assert(tree@.len() == tree.0@.len());
            assert(tree.0@.len() == 0);
        }
        let root = Node::new(true, NodeType::Leaf);
        tree.0.push(root);
        proof {
            assert(tree.0@ =~= seq![root]);
            assert(tree@.len() == tree.0@.len());
            assert(tree@[0] == tree.0@[0]@);
            assert(tree@[0].cells =~= Seq::<CellV>::empty());
            assert(tree@[0].wf());
            assert(nav_wf(tree@));
        }
        Table { tree }
    }

    /// Looks a row up by its id; a tombstoned row is not visible.
    pub fn get(&self, rid: u32, transaction: &mut Transaction) -> (r: Option<Row>)
        requires
            self.wf(),
        ensures
            *final(transaction) == *old(transaction),
            r is Some <==> spec_found_live(self.tree@, rid),
            r is Some ==> r.unwrap()@ == self.tree@[spec_lookup_page(self.tree@, rid)].cells[
                spec_lookup_slot(self.tree@, rid)
            ].row,
    {
        let cursor = self.tree.find(rid);
        let node = &self.tree.0[cursor.page_num];
        proof {
            assert(node@ == self.tree@[cursor.page_num as int]);
        }
        if cursor.cell_num < node.cells.len() {
            let cell = &node.cells[cursor.cell_num];
            proof {
                assert(cell@ == node@.cells[cursor.cell_num as int]);
            }
            if cell.key == rid && !cell.deleted {
                return Some(cell.row.clone());
            }
        }
        None
    }

    /// Inserts a row keyed by its id, recording an Insert undo entry; a live
    /// duplicate key is rejected, and a tombstoned cell with the key is
    /// revived with the new row.
    pub fn insert(&mut self, row: &Row, transaction: &mut Transaction) -> (r: Result<
        u32,
        TableError,
    >)
        requires
            insert_pre(old(self).tree@, row@),
        ensures
            r is Ok <==> !spec_found_live(old(self).tree@, row@.id),
            r is Ok ==> r.unwrap() == row.id && final(self).tree@ == spec_table_insert(
                old(self).tree@,
                row@,
            ) && final(transaction).write_set@ == old(transaction).write_set@.push(
                WriteRecord { wr_type: WriteRecordType::Insert, key: row.id, rid: row.id },
            ),
            r is Err ==> r == Err::<u32, TableError>(TableError::DuplicateKey) && *final(self)
                == *old(self) && *final(transaction) == *old(transaction),
            final(transaction).state == old(transaction).state,
            final(transaction).txn_id == old(transaction).txn_id,
            final(self).wf(),
    {
        let ghost t = self.tree@;
        let cursor = self.tree.find(row.id);
        let pg = cursor.page_num;
        let idx = cursor.cell_num;
        proof {
            assert(self.tree@[pg as int] == self.tree.0@[pg as int]@);
            lemma_insertion_index_props(t[pg as int].leaf_keys(), row.id);
        }
        let cells_len = self.tree.0[pg].cells.len();
        let mut found = false;
        let mut found_live = false;
        if idx < cells_len {
            let node = &self.tree.0[pg];
            proof {
                assert(node@ == t[pg as int]);
                assert(node@.cells[idx as int] == node.cells@[idx as int]@);
            }
            if node.cells[idx].key == row.id {
                found = true;
                if !node.cells[idx].deleted {
                    found_live = true;
                }
            }
        }
        if found_live {
            return Err(TableError::DuplicateKey);
        }
        if found {
            // revive the tombstoned cell with the new row
            let ghost prev_vec = self.tree.0@;
            let nd = &mut self.tree.0[pg];
            nd.cells.set(idx, Cell { key: row.id, row: row.clone(), deleted: false });
            proof {
                assert forall|q: int| 0 <= q < t.len() && q != pg implies self.tree@[q] == t[q] by {
                    assert(self.tree.0@[q] == prev_vec[q]);
                    assert(self.tree@[q] == self.tree.0@[q]@);
                }
                assert(self.tree@[pg as int] == self.tree.0@[pg as int]@);
                assert(self.tree@[pg as int].cells =~= t[pg as int].cells.update(
                    idx as int,
                    cell_of(row@),
                ));
                assert(self.tree@[pg as int] =~= (NodeV {
                    cells: t[pg as int].cells.update(idx as int, cell_of(row@)),
                    ..t[pg as int]
                }));
                assert(self.tree@ =~= spec_table_insert(t, row@));
                assert forall|p: int| 0 <= p < self.tree@.len() implies (#[trigger] self.tree@[p]).wf() by {
                    if p == pg {
                        assert(t[p].wf());
                    }
                }
                assert(nav_wf(self.tree@));
            }
        } else if cells_len < LEAF_NODE_MAX_CELLS {
            let ghost prev_vec = self.tree.0@;
            let nd = &mut self.tree.0[pg];
            nd.insert(row, &cursor);
            proof {
                assert forall|q: int| 0 <= q < t.len() && q != pg implies self.tree@[q] == t[q] by {
                    assert(self.tree.0@[q] == prev_vec[q]);
                    assert(self.tree@[q] == self.tree.0@[q]@);
                }
                assert(self.tree@[pg as int] == self.tree.0@[pg as int]@);
                assert(self.tree@[pg as int] =~= (NodeV {
                    num_of_cells: (t[pg as int].num_of_cells + 1) as u32,
                    cells: t[pg as int].cells.insert(idx as int, cell_of(row@)),
                    ..t[pg as int]
                }));
                assert(self.tree@ =~= spec_table_insert(t, row@));
                let nc = self.tree@[pg as int].cells;
                assert(forall|k: int|
                    0 <= k < t[pg as int].cells.len() ==> t[pg as int].leaf_keys()[k] == (
                    #[trigger] t[pg as int].cells[k]).key);
                assert forall|i: int, j: int| 0 <= i < j < nc.len() implies nc[i].key < nc[j].key by {
                    if j < idx {
                        assert(nc[i] == t[pg as int].cells[i] && nc[j] == t[pg as int].cells[j]);
                    } else if j == idx {
                        assert(nc[i] == t[pg as int].cells[i]);
                    } else if i < idx {
                        assert(nc[j] == t[pg as int].cells[j - 1]);
                    } else if i == idx {
                        assert(nc[j] == t[pg as int].cells[j - 1]);
                        assert(t[pg as int].cells[j - 1].key >= row@.id);
                        assert(t[pg as int].cells[j - 1].key != row@.id);
                    } else {
                        assert(nc[i] == t[pg as int].cells[i - 1] && nc[j] == t[pg as int].cells[j
                            - 1]);
                    }
                }
                assert forall|i: int| 0 <= i < nc.len() implies (#[trigger] nc[i]).row.id == nc[i].key
                    && nc[i].row.wf() by {
                    if i < idx {
                        assert(nc[i] == t[pg as int].cells[i]);
                    } else if i > idx {
                        assert(nc[i] == t[pg as int].cells[i - 1]);
                    }
                }
                assert(self.tree@[pg as int].wf());
                assert forall|p: int| 0 <= p < self.tree@.len() implies (#[trigger] self.tree@[p]).wf() by {
                    if p != pg {
                        assert(self.tree@[p] == t[p]);
                    }
                }
                assert(nav_wf(self.tree@));
            }
        } else {
            proof {
                assert forall|k: int| 0 <= k < idx implies (#[trigger] t[pg as int].cells[k]).key
                    < row@.id by {
                    assert(t[pg as int].leaf_keys()[k] == t[pg as int].cells[k].key);
                }
                assert forall|k: int|
                    idx <= k < t[pg as int].cells.len() implies (#[trigger] t[pg as int].cells[k]).key
                    > row@.id by {
                    assert(t[pg as int].leaf_keys()[k] == t[pg as int].cells[k].key);
                    if k == idx {
                        assert(t[pg as int].cells[k].key != row@.id);
                    } else {
                        assert(t[pg as int].cells[idx as int].key < t[pg as int].cells[k].key);
                        assert(t[pg as int].leaf_keys()[idx as int] >= row@.id);
                    }
                }
                assert(split_leaf_pre(t, pg as int, idx as int, row@));
            }
            self.tree.split_and_insert_leaf_node(&cursor, row);
            proof {
                assert(self.tree@ == spec_table_insert(t, row@));
            }
        }
        transaction.push_write_record(
            WriteRecord { wr_type: WriteRecordType::Insert, key: row.id, rid: row.id },
        );
        Ok(row.id)
    }

    /// Marks the found cell for `key` with the given tombstone flag; used by
    /// delete, by commit to finalize staged deletes, and by abort to undo.
    fn mark(&mut self, key: u32, deleted: bool)
        requires
            old(self).wf(),
        ensures
            final(self).tree@ == spec_mark(old(self).tree@, key, deleted),
            final(self).wf(),
    {
        let ghost t = self.tree@;
        let cursor = self.tree.find(key);
        let pg = cursor.page_num;
        let idx = cursor.cell_num;
        proof {
            assert(self.tree@[pg as int] == self.tree.0@[pg as int]@);
        }
        let cells_len = self.tree.0[pg].cells.len();
        if idx < cells_len {
            let hit = self.tree.0[pg].cells[idx].key == key;
            proof {
                assert(t[pg as int].cells[idx as int] == self.tree.0@[pg as int].cells@[idx as int]@);
            }
            if hit {
                let ghost prev_vec = self.tree.0@;
                let nd = &mut self.tree.0[pg];
                let row = nd.cells[idx].row.clone();
                nd.cells.set(idx, Cell { key, row, deleted });
                proof {
                    assert forall|q: int| 0 <= q < t.len() && q != pg implies self.tree@[q] == t[q] by {
                        assert(self.tree.0@[q] == prev_vec[q]);
                        assert(self.tree@[q] == self.tree.0@[q]@);
                    }
                    assert(self.tree@[pg as int] == self.tree.0@[pg as int]@);
                    assert(self.tree@[pg as int].cells =~= t[pg as int].cells.update(
                        idx as int,
                        CellV { deleted, ..t[pg as int].cells[idx as int] },
                    ));
                    assert(self.tree@[pg as int] =~= (NodeV {
                        cells: t[pg as int].cells.update(
                            idx as int,
                            CellV { deleted, ..t[pg as int].cells[idx as int] },
                        ),
                        ..t[pg as int]
                    }));
                    assert(self.tree@ =~= spec_mark(t, key, deleted));
                    assert forall|p: int|
                        0 <= p < self.tree@.len() implies (#[trigger] self.tree@[p]).wf() by {
                        if p == pg {
                            assert(t[p].wf());
                            let nc = self.tree@[p].cells;
                            assert forall|i: int|
                                0 <= i < nc.len() implies (#[trigger] nc[i]).key == t[p].cells[i].key
                                && nc[i].row == t[p].cells[i].row by {}
                        }
                    }
                    assert(nav_wf(self.tree@));
                }
                return ;
            }
        }
        proof {
            assert(self.tree@ =~= spec_mark(t, key, deleted));
        }
    }

    /// Stages the deletion of `key`: the cell is tombstoned at once and a
    /// Delete undo entry records how to restore it.
    pub fn delete(&mut self, key: u32, transaction: &mut Transaction) -> (r: Result<
        (),
        TableError,
    >)
        requires
            old(self).wf(),
        ensures
            r is Ok <==> spec_found_live(old(self).tree@, key),
            r is Ok ==> final(self).tree@ == spec_mark(old(self).tree@, key, true)
                && final(transaction).write_set@ == old(transaction).write_set@.push(
                WriteRecord { wr_type: WriteRecordType::Delete, key, rid: key },
            ),
            r is Err ==> r == Err::<(), TableError>(TableError::KeyNotFound)
                && *final(self) == *old(self) && *final(transaction) == *old(transaction),
            final(self).wf(),
            final(transaction).state == old(transaction).state,
            final(transaction).txn_id == old(transaction).txn_id,
    {
        let cursor = self.tree.find(key);
        proof {
            assert(self.tree@[cursor.page_num as int] == self.tree.0@[cursor.page_num as int]@);
        }
        let node = &self.tree.0[cursor.page_num];
        let mut live = false;
        if cursor.cell_num < node.cells.len() {
            proof {
                assert(node@.cells[cursor.cell_num as int] == node.cells@[cursor.cell_num as int]@);
            }
            if node.cells[cursor.cell_num].key == key && !node.cells[cursor.cell_num].deleted {
                live = true;
            }
        }
        if !live {
            return Err(TableError::KeyNotFound);
        }
        self.mark(key, true);
        transaction.push_write_record(
            WriteRecord { wr_type: WriteRecordType::Delete, key, rid: key },
        );
        Ok(())
    }

    /// Physically deletes the cell for `key`, if any: later cells in its
    /// leaf shift down and the page's cell count drops. Used by commit to
    /// finalize a staged delete and by abort to take an inserted row out
    /// again.
    pub fn apply_delete(&mut self, key: u32)
        requires
            old(self).wf(),
        ensures
            final(self).tree@ == spec_erase(old(self).tree@, key),
            final(self).wf(),
    {
        let ghost t = self.tree@;
        let cursor = self.tree.find(key);
        let pg = cursor.page_num;
        let idx = cursor.cell_num;
        proof {
            assert(self.tree@[pg as int] == self.tree.0@[pg as int]@);
        }
        let cells_len = self.tree.0[pg].cells.len();
        if idx < cells_len {
            let hit = self.tree.0[pg].cells[idx].key == key;
            proof {
                assert(t[pg as int].cells[idx as int] == self.tree.0@[pg as int].cells@[idx as int]@);
                assert(t[pg as int].wf());
            }
            if hit {
                let ghost prev_vec = self.tree.0@;
                let nd = &mut self.tree.0[pg];
                nd.cells.remove(idx);
                let m = nd.num_of_cells;
                nd.num_of_cells = m - 1;
                proof {
                    assert forall|q: int| 0 <= q < t.len() && q != pg implies self.tree@[q] == t[q] by {
                        assert(self.tree.0@[q] == prev_vec[q]);
                        assert(self.tree@[q] == self.tree.0@[q]@);
                    }
                    assert(self.tree@[pg as int] == self.tree.0@[pg as int]@);
                    assert forall|k: int|
                        0 <= k < self.tree@[pg as int].cells.len() implies self.tree@[pg as int].cells[k]
                        == t[pg as int].cells.remove(idx as int)[k] by {
                        if k < idx {
                            assert(self.tree.0@[pg as int].cells@[k] == prev_vec[pg as int].cells@[k]);
                        } else {
                            assert(self.tree.0@[pg as int].cells@[k] == prev_vec[pg as int].cells@[k
                                + 1]);
                        }
                        assert(self.tree@[pg as int].cells[k] == self.tree.0@[pg as int].cells@[k]@);
                        assert(t[pg as int].cells[k] == prev_vec[pg as int].cells@[k]@);
                    }
                    assert(self.tree@[pg as int].cells =~= t[pg as int].cells.remove(idx as int));
                    assert(self.tree@[pg as int] =~= (NodeV {
                        num_of_cells: (t[pg as int].num_of_cells - 1) as u32,
                        cells: t[pg as int].cells.remove(idx as int),
                        ..t[pg as int]
                    }));
                    assert(self.tree@ =~= spec_erase(t, key));
                    assert forall|p: int|
                        0 <= p < self.tree@.len() implies (#[trigger] self.tree@[p]).wf() by {
                        if p == pg {
                            let nc = self.tree@[p].cells;
                            assert forall|i: int, j: int|
                                0 <= i < j < nc.len() implies #[trigger] nc[i].key
                                < #[trigger] nc[j].key by {
                                if j < idx {
                                    assert(nc[i] == t[p].cells[i] && nc[j] == t[p].cells[j]);
                                } else if i < idx {
                                    assert(nc[i] == t[p].cells[i] && nc[j] == t[p].cells[j + 1]);
                                } else {
                                    assert(nc[i] == t[p].cells[i + 1] && nc[j] == t[p].cells[j + 1]);
                                }
                            }
                            assert forall|i: int|
                                0 <= i < nc.len() implies (#[trigger] nc[i]).row.id == nc[i].key
                                && nc[i].row.wf() by {
                                if i < idx {
                                    assert(nc[i] == t[p].cells[i]);
                                } else {
                                    assert(nc[i] == t[p].cells[i + 1]);
                                }
                            }
                            assert(self.tree@[p].wf());
                        }
                    }
                    assert(nav_wf(self.tree@));
                }
                return ;
            }
        }
        proof {
            assert(self.tree@ =~= spec_erase(t, key));
        }
    }

    /// Restores a previously deleted row by clearing its tombstone.
    pub fn rollback_delete(&mut self, rid: u32)
        requires
            old(self).wf(),
        ensures
            final(self).tree@ == spec_mark(old(self).tree@, rid, false),
            final(self).wf(),
    {
        self.mark(rid, false);
    }
}

/// Removing the found cell for `key` takes the key out of the tree: the
/// lookup path is untouched and the cell that replaces the removed one, if
/// any, carries a strictly larger key.
pub proof fn lemma_erase_properties(t: Seq<NodeV>, key: u32)
    requires
        nav_wf(t),
    ensures
        spec_erase(t, key).len() == t.len(),
        !spec_found(spec_erase(t, key), key),
        !spec_found_live(spec_erase(t, key), key),
{
    lemma_descend_flag_invariant(t, t, key, 0, t.len() as nat);
    if spec_found(t, key) {
        let pg = spec_lookup_page(t, key);
        let idx = spec_lookup_slot(t, key);
        let t1 = spec_erase(t, key);
        lemma_descend_flag_invariant(t, t1, key, 0, t.len() as nat);
        assert(spec_lookup_page(t1, key) == pg);
        let keys = t[pg].leaf_keys();
        let keys1 = t1[pg].leaf_keys();
        assert(t[pg].wf());
        assert(forall|i: int, j: int| 0 <= i < j < keys.len() ==> keys[i] < keys[j]) by {
            assert(forall|k: int|
                0 <= k < t[pg].cells.len() ==> keys[k] == (#[trigger] t[pg].cells[k]).key);
        }
        lemma_insertion_index_props(keys, key);
        assert forall|k: int| 0 <= k < idx implies keys1[k] < key by {
            assert(t1[pg].cells[k] == t[pg].cells[k]);
            assert(keys1[k] == t1[pg].cells[k].key);
            assert(keys[k] == t[pg].cells[k].key);
        }
        assert forall|k: int| idx <= k < keys1.len() implies keys1[k] > key by {
            assert(t1[pg].cells[k] == t[pg].cells[k + 1]);
            assert(keys1[k] == t[pg].cells[k + 1].key);
            assert(t[pg].cells[idx].key < t[pg].cells[k + 1].key);
        }
        crate::node::lemma_index_from_bounds(keys1, key, idx);
        assert(spec_lookup_slot(t1, key) == idx);
        if idx < t1[pg].cells.len() {
            assert(t1[pg].cells[idx].key > key);
        }
    }
}

/// Tombstoning a cell before removing it changes nothing: the staged delete
/// followed by its physical application equals the physical removal alone.
pub proof fn lemma_erase_after_mark(t: Seq<NodeV>, key: u32)
    requires
        nav_wf(t),
    ensures
        spec_erase(spec_mark(t, key, true), key) == spec_erase(t, key),
{
    lemma_descend_flag_invariant(t, t, key, 0, t.len() as nat);
    if spec_found(t, key) {
        lemma_mark_properties(t, key, true);
        let pg = spec_lookup_page(t, key);
        let idx = spec_lookup_slot(t, key);
        let staged = spec_mark(t, key, true);
        assert(spec_lookup_page(staged, key) == pg && spec_lookup_slot(staged, key) == idx);
        assert(spec_found(staged, key));
        assert(staged[pg].cells == t[pg].cells.update(
            idx,
            CellV { deleted: true, ..t[pg].cells[idx] },
        ));
        assert(staged[pg].cells.len() == t[pg].cells.len());
        assert forall|k: int|
            0 <= k < staged[pg].cells.remove(idx).len() implies staged[pg].cells.remove(idx)[k]
            == t[pg].cells.remove(idx)[k] by {
            if k < idx {
                assert(staged[pg].cells.remove(idx)[k] == staged[pg].cells[k]);
                assert(staged[pg].cells[k] == t[pg].cells[k]);
            } else {
                assert(staged[pg].cells.remove(idx)[k] == staged[pg].cells[k + 1]);
                assert(staged[pg].cells[k + 1] == t[pg].cells[k + 1]);
            }
        }
        assert(staged[pg].cells.remove(idx) =~= t[pg].cells.remove(idx));
        assert(staged[pg].num_of_cells == t[pg].num_of_cells);
        assert(spec_erase(staged, key)[pg] =~= spec_erase(t, key)[pg]);
        assert forall|q: int|
            0 <= q < t.len() && q != pg implies spec_erase(staged, key)[q] == spec_erase(
            t,
            key,
        )[q] by {
            assert(staged[q] == t[q]);
        }
        assert(spec_erase(staged, key) =~~= spec_erase(t, key));
    }
}

/// Descent never reads a leaf's cells or tombstones, so two trees that
/// agree on node kinds, internal cells and rightmost children are searched
/// along the same path.
pub proof fn lemma_descend_flag_invariant(
    t: Seq<NodeV>,
    t2: Seq<NodeV>,
    key: u32,
    page: int,
    fuel: nat,
)
    requires
        t2.len() == t.len(),
        0 <= page < t.len(),
        nav_wf(t),
        forall|p: int|
            0 <= p < t.len() ==> {
                &&& (#[trigger] t2[p]).node_type == t[p].node_type
                &&& t2[p].internal_cells == t[p].internal_cells
                &&& t2[p].right_child_offset == t[p].right_child_offset
            },
    ensures
        Tree::spec_descend(t2, key, page, fuel) == Tree::spec_descend(t, key, page, fuel),
        0 <= Tree::spec_descend(t, key, page, fuel) < t.len(),
    decreases fuel,
{
    if fuel == 0 || t[page].is_leaf() {
    } else {
        let idx = insertion_index(t[page].internal_keys(), key);
        crate::node::lemma_insertion_index_bounds(t[page].internal_keys(), key);
        let next = if idx < t[page].internal_cells.len() {
            t[page].internal_cells[idx].child as int
        } else {
            t[page].right_child_offset as int
        };
        assert(0 <= next < t.len());
        lemma_descend_flag_invariant(t, t2, key, next, (fuel - 1) as nat);
    }
}

/// Tombstoning (or reviving) a found cell moves no cell and changes no key,
/// so every later lookup of the same key lands on the same cell, and
/// marking twice is the same as marking once.
pub proof fn lemma_mark_properties(t: Seq<NodeV>, key: u32, d: bool)
    requires
        nav_wf(t),
    ensures
        spec_mark(t, key, d).len() == t.len(),
        spec_found(t, key) ==> spec_found(spec_mark(t, key, d), key),
        spec_found(t, key) && d ==> !spec_found_live(spec_mark(t, key, d), key),
        spec_found(t, key) && !d ==> spec_found_live(spec_mark(t, key, d), key),
        spec_mark(spec_mark(t, key, d), key, d) == spec_mark(t, key, d),
        spec_found(t, key) ==> spec_mark(spec_mark(t, key, d), key, d) == spec_mark(t, key, d)
            && spec_lookup_page(spec_mark(t, key, d), key) == spec_lookup_page(t, key)
            && spec_lookup_slot(spec_mark(t, key, d), key) == spec_lookup_slot(t, key),
{
    lemma_descend_flag_invariant(t, t, key, 0, t.len() as nat);
    if spec_found(t, key) {
        let pg = spec_lookup_page(t, key);
        let idx = spec_lookup_slot(t, key);
        let t1 = spec_mark(t, key, d);
        lemma_descend_flag_invariant(t, t1, key, 0, t.len() as nat);
        assert(spec_lookup_page(t1, key) == pg);
        assert(t1[pg].leaf_keys() =~= t[pg].leaf_keys());
        assert(spec_lookup_slot(t1, key) == idx);
        assert(spec_found(t1, key));
        let t2 = spec_mark(t1, key, d);
        assert(t1[pg].cells[idx] == (CellV { deleted: d, ..t[pg].cells[idx] }));
        assert(t1[pg].cells.update(idx, CellV { deleted: d, ..t1[pg].cells[idx] }) =~= t1[pg].cells);
        assert(t2[pg] =~= t1[pg]);
        assert(t2 =~~= t1);
    }
}

/// The live rows of one leaf's cells, from cell `j` on, in cell order.
pub open spec fn leaf_live_from(cells: Seq<CellV>, j: int) -> Seq<RowV>
    decreases cells.len() - j,
{
    if j < 0 || j >= cells.len() {
        Seq::empty()
    } else {
        (if !cells[j].deleted {
            seq![cells[j].row]
        } else {
            Seq::empty()
        }) + leaf_live_from(cells, j + 1)
    }
}

/// The live rows of the leaf pages with index in `lo..hi`, in page order.
pub open spec fn spec_live_rows(t: Seq<NodeV>, lo: int, hi: int) -> Seq<RowV>
    decreases hi - lo,
{
    if lo >= hi {
        Seq::empty()
    } else {
        (if t[lo].is_leaf() {
            leaf_live_from(t[lo].cells, 0)
        } else {
            Seq::empty()
        }) + spec_live_rows(t, lo + 1, hi)
    }
}

/// What a select yields: with an id, the single matching live row, if any;
/// without one, every live row in page order.
pub open spec fn spec_select_rows(t: Seq<NodeV>, row: Option<Row>) -> Seq<RowV> {
    match row {
        Some(row) => if spec_found_live(t, row.id) {
            seq![t[spec_lookup_page(t, row.id)].cells[spec_lookup_slot(t, row.id)].row]
        } else {
            Seq::empty()
        },
        None => spec_live_rows(t, 0, t.len() as int),
    }
}

impl Table {
    /// Collects rows for a select: with an id, the single matching live row;
    /// without one, every live row, scanned page by page.
    pub fn select(&self, statement: &Statement) -> (r: Vec<Row>)
        requires
            self.wf(),
        ensures
            r.deep_view() == spec_select_rows(self.tree@, statement.row),
    {
        let ghost t = self.tree@;
        let mut out: Vec<Row> = Vec::new();
        match &statement.row {
            Some(row) => {
                let cursor = self.tree.find(row.id);
                let node = &self.tree.0[cursor.page_num];
                proof {
                    assert(node@ == t[cursor.page_num as int]);
                }
                if cursor.cell_num < node.cells.len() {
                    let cell = &node.cells[cursor.cell_num];
                    proof {
                        assert(cell@ == node@.cells[cursor.cell_num as int]);
                    }
                    if cell.key == row.id && !cell.deleted {
                        out.push(cell.row.clone());
                    }
                }
                proof {
                    if spec_found_live(t, row.id) {
                        assert(out.deep_view() =~= seq![
                            t[spec_lookup_page(t, row.id)].cells[spec_lookup_slot(t, row.id)].row,
                        ]);
                    } else {
                        assert(out.deep_view() =~= Seq::<RowV>::empty());
                    }
                }
            },
            None => {
                let mut p: usize = 0;
                while p < self.tree.0.len()
                    invariant
                        self.wf(),
                        t == self.tree@,
                        0 <= p <= t.len(),
                        spec_live_rows(t, 0, t.len() as int) == out.deep_view() + spec_live_rows(
                            t,
                            p as int,
                            t.len() as int,
                        ),
                    decreases t.len() - p,
                {
                    proof {
                        assert(t[p as int] == self.tree.0@[p as int]@);
                    }
                    let node = &self.tree.0[p];
                    if node.node_type == NodeType::Leaf {
                        let mut j: usize = 0;
                        while j < node.cells.len()
                            invariant
                                t == self.tree@,
                                p < t.len(),
                                node@ == t[p as int],
                                t[p as int].is_leaf(),
                                0 <= j <= node@.cells.len(),
                                spec_live_rows(t, 0, t.len() as int) == out.deep_view()
                                    + leaf_live_from(node@.cells, j as int) + spec_live_rows(
                                    t,
                                    p + 1,
                                    t.len() as int,
                                ),
                            decreases node@.cells.len() - j,
                        {
                            let ghost prev = out.deep_view();
                            proof {
                                assert(node@.cells[j as int] == node.cells@[j as int]@);
                            }
                            if !node.cells[j].deleted {
                                out.push(node.cells[j].row.clone());
                                proof {
                                    assert(out.deep_view() =~= prev + seq![
                                        node@.cells[j as int].row,
                                    ]);
                                }
                            }
                            j = j + 1;
                            proof {
                                assert(out.deep_view() + leaf_live_from(node@.cells, j as int)
                                    =~= prev + leaf_live_from(node@.cells, j - 1));
                            }
                        }
                        proof {
                            assert(leaf_live_from(node@.cells, node@.cells.len() as int)
                                =~= Seq::<RowV>::empty());
                        }
                    }
                    p = p + 1;
                    proof {
                        assert(spec_live_rows(t, p - 1, t.len() as int) == (if t[p - 1].is_leaf() {
                            leaf_live_from(t[p - 1].cells, 0)
                        } else {
                            Seq::<RowV>::empty()
                        }) + spec_live_rows(t, p as int, t.len() as int));
                        assert(out.deep_view() + spec_live_rows(t, p as int, t.len() as int)
                            =~= out.deep_view() + spec_live_rows(t, p as int, t.len() as int));
                    }
                }
                proof {
                    assert(spec_live_rows(t, t.len() as int, t.len() as int)
                        =~= Seq::<RowV>::empty());
                    assert(out.deep_view() + Seq::<RowV>::empty() =~= out.deep_view());
                }
            },
        }
        out
    }
}

} // verus!
