//! Properties that tie the operations together, proved from the contracts
//! the modules state.

use vstd::prelude::*;
use crate::node::{NodeV};
use crate::table::{
    lemma_descend_flag_invariant, lemma_erase_after_mark, lemma_erase_properties,
    spec_erase, spec_found, spec_found_live, spec_lookup_page,
    spec_lookup_slot, spec_mark, spec_table_insert, Table,
};
use crate::transaction::{WriteRecord, WriteRecordType};
use crate::transaction_manager::{spec_abort_apply, spec_commit_apply, TransactionManager};
use crate::tree::{
    cell_of, inserted_cells, is_child_ptr, lemma_split_result_wf, nav_wf, reparent,
    spec_insert_child, spec_internal_split, spec_leaf_split_pages, spec_sibling_repair,
    spec_split_result, split_leaf_pre, split_parent_pre, Tree,
};
use crate::row::RowV;
use crate::node::{
    lemma_insertion_index_props, INTERNAL_NODE_MAX_CELLS, LEAF_NODE_LEFT_SPLIT_COUNT,
    LEAF_NODE_MAX_CELLS,
};

verus! {

/// After a root-leaf split, both resulting leaves are still sorted
/// ascending, the root's single cell carries the true maximum key of its
/// left child's subtree, and every key under the rightmost child exceeds
/// it. This shows the internal-key and ordering conditions for the split
/// that creates the first internal node.
pub proof fn law_root_split_keys(t: Seq<NodeV>, cell_num: int, row: RowV)
    requires
        split_leaf_pre(t, 0, cell_num, row),
        t[0].is_root,
        t[0].leaf_sorted(),
    ensures
        ({
            let res = spec_split_result(t, 0, cell_num, row);
            let n = t.len() as int;
            &&& (forall|i: int, j: int|
                0 <= i < j < res[n].cells.len() ==> #[trigger] res[n].cells[i].key
                    < #[trigger] res[n].cells[j].key)
            &&& (forall|i: int, j: int|
                0 <= i < j < res[n + 1].cells.len() ==> #[trigger] res[n + 1].cells[i].key
                    < #[trigger] res[n + 1].cells[j].key)
            &&& res[0].internal_cells[0].key == res[n].cells.last().key
            &&& (forall|k: int|
                0 <= k < res[n + 1].cells.len() ==> #[trigger] res[n + 1].cells[k].key
                    > res[0].internal_cells[0].key)
        }),
{
    let res = spec_split_result(t, 0, cell_num, row);
    let n = t.len() as int;
    let inserted = inserted_cells(t[0], cell_num, row);
    let lo = inserted.take(LEAF_NODE_LEFT_SPLIT_COUNT as int);
    let hi = inserted.skip(LEAF_NODE_LEFT_SPLIT_COUNT as int);
    assert forall|i: int, j: int|
        0 <= i < j < inserted.len() implies #[trigger] inserted[i].key < #[trigger] inserted[j].key by {
        let c = t[0].cells;
        if i < cell_num && j < cell_num {
            assert(inserted[i] == c[i] && inserted[j] == c[j]);
        } else if i < cell_num && j == cell_num {
            assert(inserted[i] == c[i]);
        } else if i < cell_num {
            assert(inserted[i] == c[i] && inserted[j] == c[j - 1]);
            assert(c[j - 1].key > row.id);
            if j - 1 > i {
            } else {
                assert(c[i].key < row.id);
            }
        } else if i == cell_num {
            assert(inserted[j] == c[j - 1]);
        } else {
            assert(inserted[i] == c[i - 1] && inserted[j] == c[j - 1]);
        }
    }
    assert(res[n].cells == lo);
    assert(res[n + 1].cells == hi);
    assert(res[0].internal_cells[0].key == lo.last().key);
}

/// After a root-leaf split, every non-root page the split produced names
/// the new root as its parent, and the root references exactly those two
/// pages — parent consistency for the promotion step.
pub proof fn law_root_split_parents(t: Seq<NodeV>, cell_num: int, row: RowV)
    requires
        split_leaf_pre(t, 0, cell_num, row),
        t[0].is_root,
        t.len() == 1,
    ensures
        ({
            let res = spec_split_result(t, 0, cell_num, row);
            &&& res.len() == 3
            &&& res[0].is_root
            &&& !res[1].is_root && res[1].parent_offset == 0
            &&& !res[2].is_root && res[2].parent_offset == 0
            &&& res[0].internal_cells[0].child == 1
            &&& res[0].right_child_offset == 2
        }),
{
}

/// Split correctness for every leaf split, cascades included: the two
/// resulting leaves hold, between them, exactly the pre-split cells plus the
/// inserted one, in order; every other leaf keeps its cells; the new node
/// holding the smaller keys links to the node keeping the larger ones; and
/// the whole result is navigably well-formed, so in particular every
/// resulting leaf is sorted strictly ascending.
pub proof fn law_split_preserves_cells(t: Seq<NodeV>, pn: int, cell_num: int, row: RowV)
    requires
        nav_wf(t),
        split_leaf_pre(t, pn, cell_num, row),
        !t[pn].is_root ==> split_parent_pre(t, pn, row),
    ensures
        ({
            let res = spec_split_result(t, pn, cell_num, row);
            let n = t.len() as int;
            let inserted = inserted_cells(t[pn], cell_num, row);
            &&& nav_wf(res)
            &&& (t[pn].is_root ==> {
                &&& res[n].cells + res[n + 1].cells == inserted
                &&& res[n].next_leaf_offset == n + 1
                &&& (forall|q: int| 1 <= q < n ==> (#[trigger] res[q]).cells == t[q].cells)
            })
            &&& (!t[pn].is_root ==> {
                &&& res[n].cells + res[pn].cells == inserted
                &&& res[n].next_leaf_offset == pn
                &&& (forall|q: int| 0 <= q < n && q != pn ==> (#[trigger] res[q]).cells == t[q].cells)
            })
        }),
{
    let res = spec_split_result(t, pn, cell_num, row);
    let n = t.len() as int;
    let inserted = inserted_cells(t[pn], cell_num, row);
    let lo = inserted.take(LEAF_NODE_LEFT_SPLIT_COUNT as int);
    let hi = inserted.skip(LEAF_NODE_LEFT_SPLIT_COUNT as int);
    lemma_split_result_wf(t, pn, cell_num, row);
    assert(lo + hi =~= inserted);
    if t[pn].is_root {
        assert(res[n].cells == lo && res[n + 1].cells == hi);
    } else {
        let pr = t[pn].parent_offset as int;
        let t3 = spec_leaf_split_pages(t, pn, cell_num, row);
        let t1 = spec_sibling_repair(t, pn, n);
        assert(t3[pn].cells == hi);
        assert(t3[n].cells == lo && t3[n].next_leaf_offset == pn);
        assert forall|q: int| 0 <= q < n && q != pn implies (#[trigger] t3[q]).cells
            == t[q].cells by {
            assert(t3[q] == t1[q]);
        }
        let rc = t3[pr].right_child_offset as int;
        let t4 = t3.update(
            pr,
            spec_insert_child(t3[pr], rc, t3[rc].cells.last().key, n, lo.last().key),
        );
        assert(t4[pr].cells == t3[pr].cells);
        if t4[pr].internal_cells.len() > INTERNAL_NODE_MAX_CELLS {
            assert(res == spec_internal_split(t4, pr));
            let n4 = t4.len() as int;
            assert forall|q: int| 0 <= q < n4 implies (#[trigger] res[q]).cells == t4[q].cells by {
                if q == pr {
                } else if is_child_ptr(res[n4 + 1], q) {
                    assert(res[q] == reparent(t4[q], n4 + 1));
                } else if is_child_ptr(res[n4], q) {
                    assert(res[q] == reparent(t4[q], n4));
                } else {
                    assert(res[q] == t4[q]);
                }
            }
            assert(res[n].next_leaf_offset == t4[n].next_leaf_offset);
        } else {
            assert(res == t4);
        }
        assert(res[pn].cells == hi);
        assert(res[n].cells == lo);
    }
}

/// Transaction atomicity for an insert: a row inserted into a leaf with
/// room and then undone through its Insert record leaves the tree exactly —
/// same pages, same cell sets — as it stood before the insert. The
/// cascading-split case is not covered: there the pages the split created
/// remain, though the row itself is removed all the same.
pub proof fn law_insert_then_abort_restores_tree(t: Seq<NodeV>, row: RowV)
    requires
        nav_wf(t),
        row.wf(),
        !spec_found(t, row.id),
        t[spec_lookup_page(t, row.id)].is_leaf(),
        t[spec_lookup_page(t, row.id)].cells.len() < LEAF_NODE_MAX_CELLS,
    ensures
        ({
            let grown = spec_table_insert(t, row);
            let ws = seq![
                WriteRecord { wr_type: WriteRecordType::Insert, key: row.id, rid: row.id },
            ];
            spec_abort_apply(grown, ws) == t
        }),
{
    let pg = spec_lookup_page(t, row.id);
    let idx = spec_lookup_slot(t, row.id);
    let grown = spec_table_insert(t, row);
    let ws = seq![WriteRecord { wr_type: WriteRecordType::Insert, key: row.id, rid: row.id }];
    lemma_descend_flag_invariant(t, t, row.id, 0, t.len() as nat);
    assert(grown == t.update(
        pg,
        NodeV {
            num_of_cells: (t[pg].num_of_cells + 1) as u32,
            cells: t[pg].cells.insert(idx, cell_of(row)),
            ..t[pg]
        },
    ));
    let keys = t[pg].leaf_keys();
    assert(t[pg].wf());
    assert(forall|i: int, j: int| 0 <= i < j < keys.len() ==> keys[i] < keys[j]) by {
        assert(forall|k: int|
            0 <= k < t[pg].cells.len() ==> keys[k] == (#[trigger] t[pg].cells[k]).key);
    }
    lemma_insertion_index_props(keys, row.id);
    lemma_descend_flag_invariant(t, grown, row.id, 0, t.len() as nat);
    assert(spec_lookup_page(grown, row.id) == pg);
    let keys1 = grown[pg].leaf_keys();
    assert forall|k: int| 0 <= k < idx implies keys1[k] < row.id by {
        assert(grown[pg].cells[k] == t[pg].cells[k]);
        assert(keys1[k] == grown[pg].cells[k].key);
        assert(keys[k] == t[pg].cells[k].key);
    }
    assert forall|k: int| idx <= k < keys1.len() implies keys1[k] >= row.id by {
        assert(keys1[k] == (#[trigger] grown[pg].cells[k]).key);
        if k == idx {
            assert(grown[pg].cells[k] == cell_of(row));
        } else {
            assert(grown[pg].cells[k] == t[pg].cells[k - 1]);
            assert(keys[k - 1] == t[pg].cells[k - 1].key);
            assert(keys[k - 1] >= row.id);
        }
    }
    crate::node::lemma_index_from_bounds(keys1, row.id, idx);
    assert(spec_lookup_slot(grown, row.id) == idx);
    assert(grown[pg].cells[idx].key == row.id);
    assert(spec_found(grown, row.id));
    assert(spec_abort_apply(grown, ws) == spec_erase(grown, row.id)) by {
        assert(spec_abort_apply(spec_erase(grown, row.id), ws.drop_last()) == spec_erase(
            grown,
            row.id,
        ));
    }
    assert(grown[pg].cells == t[pg].cells.insert(idx, cell_of(row)));
    assert forall|k: int|
        0 <= k < grown[pg].cells.remove(idx).len() implies grown[pg].cells.remove(idx)[k]
        == t[pg].cells[k] by {
        if k < idx {
            assert(grown[pg].cells.remove(idx)[k] == grown[pg].cells[k]);
            assert(grown[pg].cells[k] == t[pg].cells[k]);
        } else {
            assert(grown[pg].cells.remove(idx)[k] == grown[pg].cells[k + 1]);
            assert(grown[pg].cells[k + 1] == t[pg].cells[k]);
        }
    }
    assert(grown[pg].cells.remove(idx) =~= t[pg].cells);
    assert(spec_erase(grown, row.id)[pg] =~= t[pg]);
    assert(spec_erase(grown, row.id) =~~= t);
}

/// Commit permanence for a delete: once a transaction has staged a delete
/// of a present key and commits, the cell is removed physically, the key
/// reads as absent, and the tree equals the one a direct removal gives.
pub proof fn law_delete_commit_reads_none(t: Seq<NodeV>, key: u32)
    requires
        nav_wf(t),
        spec_found(t, key),
    ensures
        ({
            let staged = spec_mark(t, key, true);
            let ws = seq![WriteRecord { wr_type: WriteRecordType::Delete, key, rid: key }];
            &&& spec_commit_apply(staged, ws) == spec_erase(t, key)
            &&& !spec_found_live(spec_commit_apply(staged, ws), key)
        }),
{
    let staged = spec_mark(t, key, true);
    let ws = seq![WriteRecord { wr_type: WriteRecordType::Delete, key, rid: key }];
    lemma_erase_after_mark(t, key);
    lemma_erase_properties(t, key);
    assert(spec_commit_apply(staged, ws) == spec_erase(staged, key)) by {
        assert(spec_commit_apply(spec_erase(staged, key), ws.drop_last()) == spec_erase(
            staged,
            key,
        ));
    }
}

/// Transaction ids never repeat: every transaction a well-formed manager
/// tracks carries an id below the allocation counter, so the id a next
/// `begin` returns is fresh, and any two tracked transactions differ in id.
pub proof fn law_transaction_ids_unique(tm: TransactionManager, i: int, j: int)
    requires
        tm.wf(),
        0 <= i < tm.transactions@.len(),
        0 <= j < tm.transactions@.len(),
        i != j,
    ensures
        tm.transactions@[i].txn_id != tm.transactions@[j].txn_id,
        tm.transactions@[i].txn_id < tm.next_txn_id,
{
    if i < j {
        assert(tm.transactions@[i].txn_id != tm.transactions@[j].txn_id);
    } else {
        assert(tm.transactions@[j].txn_id != tm.transactions@[i].txn_id);
    }
}

} // verus!
