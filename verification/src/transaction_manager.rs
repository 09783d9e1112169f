//! Allocates transaction ids, tracks live transactions, and drives commit
//! and abort application against the table. Ids are strictly increasing and
//! never reused; a caller that shares the manager across threads wraps it in
//! a lock, since every operation takes it exclusively.

use vstd::prelude::*;
use crate::node::NodeV;
use crate::table::{spec_erase, spec_mark, Table};
use crate::transaction::{
    IsolationLevel, Transaction, TransactionState, WriteRecord, WriteRecordType,
};

verus! {

/// The tree after the undo log `ws` is drained on commit, newest entry
/// first: each Delete record's cell is removed physically; Insert records
/// need no action, their rows are already in place.
pub open spec fn spec_commit_apply(t: Seq<NodeV>, ws: Seq<WriteRecord>) -> Seq<NodeV>
    decreases ws.len(),
{
    if ws.len() == 0 {
        t
    } else {
        let t1 = if ws.last().wr_type is Delete {
            spec_erase(t, ws.last().key)
        } else {
            t
        };
        spec_commit_apply(t1, ws.drop_last())
    }
}

/// The tree after the undo log `ws` is replayed in reverse on abort: an
/// Insert record is undone by removing its cell outright, a Delete record
/// by restoring the tombstoned row.
pub open spec fn spec_abort_apply(t: Seq<NodeV>, ws: Seq<WriteRecord>) -> Seq<NodeV>
    decreases ws.len(),
{
    if ws.len() == 0 {
        t
    } else {
        let t1 = if ws.last().wr_type is Insert {
            spec_erase(t, ws.last().key)
        } else {
            spec_mark(t, ws.last().rid, false)
        };
        spec_abort_apply(t1, ws.drop_last())
    }
}

pub struct TransactionManager {
    pub next_txn_id: u32,
    pub transactions: Vec<Transaction>,
}

impl TransactionManager {
    /// Every tracked transaction carries an id below the counter, and no two
    /// share an id.
    pub open spec fn wf(self) -> bool {
        &&& self.next_txn_id >= 1
        &&& (forall|i: int|
            0 <= i < self.transactions@.len() ==> (#[trigger] self.transactions@[i]).txn_id
                < self.next_txn_id)
        &&& (forall|i: int, j: int|
            0 <= i < j < self.transactions@.len() ==> (#[trigger] self.transactions@[i]).txn_id
                != (#[trigger] self.transactions@[j]).txn_id)
    }

    pub open spec fn has_transaction(self, txn_id: u32) -> bool {
        exists|i: int|
            0 <= i < self.transactions@.len() && (#[trigger] self.transactions@[i]).txn_id == txn_id
    }

    pub fn new() -> (tm: TransactionManager)
        ensures
            tm.wf(),
            tm.next_txn_id == 1,
            tm.transactions@.len() == 0,
    {
        TransactionManager { next_txn_id: 1, transactions: Vec::new() }
    }

    /// Allocates the next id — strictly increasing, never reused — and
    /// registers a fresh Growing transaction under it.
    pub fn begin(&mut self, iso_level: IsolationLevel) -> (txn_id: u32)
        requires
            old(self).wf(),
            old(self).next_txn_id < u32::MAX,
        ensures
            final(self).wf(),
            txn_id == old(self).next_txn_id,
            final(self).next_txn_id == old(self).next_txn_id + 1,
            final(self).transactions@.len() == old(self).transactions@.len() + 1,
            forall|i: int|
                0 <= i < old(self).transactions@.len() ==> final(self).transactions@[i] == old(self).transactions@[i],
            final(self).transactions@.last().txn_id == txn_id,
            final(self).transactions@.last().state is Growing,
            final(self).transactions@.last().iso_level == iso_level,
            final(self).transactions@.last().write_set@ == Seq::<WriteRecord>::empty(),
            final(self).has_transaction(txn_id),
    {
        let txn_id = self.next_txn_id;
        self.next_txn_id = self.next_txn_id + 1;
        let transaction = Transaction::new(txn_id, iso_level);
        self.transactions.push(transaction);
        proof {
            assert(final(self).has_transaction(txn_id)) by {
                assert(final(self).transactions@[old(self).transactions@.len() as int].txn_id
                    == txn_id);
            }
        }
        txn_id
    }

    /// The index of the transaction with `txn_id`.
    fn find_index(&self, txn_id: u32) -> (i: usize)
        requires
            self.has_transaction(txn_id),
        ensures
            i < self.transactions@.len(),
            self.transactions@[i as int].txn_id == txn_id,
    {
        let mut i: usize = 0;
        while i < self.transactions.len()
            invariant
                0 <= i <= self.transactions@.len(),
                self.has_transaction(txn_id),
                forall|k: int| 0 <= k < i ==> (#[trigger] self.transactions@[k]).txn_id != txn_id,
            decreases self.transactions@.len() - i,
        {
            if self.transactions[i].txn_id == txn_id {
                return i;
            }
            i = i + 1;
        }
        proof {
            let w = choose|w: int|
                0 <= w < self.transactions@.len() && (#[trigger] self.transactions@[w]).txn_id
                    == txn_id;
            assert(false);
        }
        0
    }

    /// Looks a transaction up by id; callers must name a registered one.
    pub fn get_transaction(&self, txn_id: &u32) -> (r: &Transaction)
        requires
            self.has_transaction(*txn_id),
        ensures
            r.txn_id == *txn_id,
            exists|i: int|
                0 <= i < self.transactions@.len() && *r == (#[trigger] self.transactions@[i]),
    {
        let i = self.find_index(*txn_id);
        &self.transactions[i]
    }

    /// Commits: the transaction becomes `Committed` and its staged deletes
    /// are applied physically; inserts are already in place and simply stay.
    pub fn commit(&mut self, table: &mut Table, txn_id: u32)
        requires
            old(self).wf(),
            old(self).has_transaction(txn_id),
            ({
                let i = choose|i: int|
                    0 <= i < old(self).transactions@.len() && (#[trigger] old(self).transactions@[i]).txn_id == txn_id;
                &&& old(self).transactions@[i].state is Growing
                &&& ((exists|k: int|
                    0 <= k < old(self).transactions@[i].write_set@.len() && (#[trigger] old(
                        self,
                    ).transactions@[i].write_set@[k]).wr_type is Delete) ==> old(table).wf())
            }),
        ensures
            final(self).wf(),
            old(table).wf() ==> final(table).wf(),
            exists|i: int|
                {
                    &&& 0 <= i < old(self).transactions@.len()
                    &&& (#[trigger] old(self).transactions@[i]).txn_id == txn_id
                    &&& final(self).transactions@[i].state is Committed
                    &&& final(self).transactions@[i].write_set@.len() == 0
                    &&& final(self).transactions@[i].txn_id == txn_id
                    &&& final(table).tree@ == spec_commit_apply(
                        old(table).tree@,
                        old(self).transactions@[i].write_set@,
                    )
                    &&& (forall|k: int|
                        0 <= k < old(self).transactions@.len() && k != i ==> final(self).transactions@[k] == old(self).transactions@[k])
                },
            final(self).next_txn_id == old(self).next_txn_id,
            final(self).transactions@.len() == old(self).transactions@.len(),
    {
        let i = self.find_index(txn_id);
        proof {
            let w = choose|w: int|
                0 <= w < old(self).transactions@.len() && (#[trigger] old(self).transactions@[w]).txn_id == txn_id;
            assert(w == i);
        }
        {
            let tr = &mut self.transactions[i];
            tr.set_state(TransactionState::Committed);
        }
        while self.transactions[i].write_set.len() > 0
            invariant
                i < self.transactions@.len(),
                self.transactions@.len() == old(self).transactions@.len(),
                self.next_txn_id == old(self).next_txn_id,
                forall|k: int|
                    0 <= k < old(self).transactions@.len() && k != i ==> self.transactions@[k]
                        == old(self).transactions@[k],
                self.transactions@[i as int].txn_id == txn_id,
                self.transactions@[i as int].state is Committed,
                old(table).wf() ==> table.wf(),
                (exists|k: int|
                    0 <= k < self.transactions@[i as int].write_set@.len() && (#[trigger] self.transactions@[i as int].write_set@[k]).wr_type is Delete) ==> table.wf(),
                spec_commit_apply(table.tree@, self.transactions@[i as int].write_set@)
                    == spec_commit_apply(
                    old(table).tree@,
                    old(self).transactions@[i as int].write_set@,
                ),
                old(self).wf(),
            decreases self.transactions@[i as int].write_set@.len(),
        {
            let ghost ws_before = self.transactions@[i as int].write_set@;
            let wr_opt = self.transactions[i].pop_write_set();
            if let Some(wr) = wr_opt {
                if wr.wr_type == WriteRecordType::Delete {
                    proof {
                        assert(ws_before[ws_before.len() - 1].wr_type is Delete);
                    }
                    table.apply_delete(wr.key);
                }
            }
            proof {
                let ws_now = self.transactions@[i as int].write_set@;
                assert forall|k: int|
                    0 <= k < ws_now.len() implies ws_now[k] == ws_before[k] by {}
            }
        }
        proof {
            assert(final(self).wf()) by {
                assert forall|k: int|
                    0 <= k < final(self).transactions@.len() implies (#[trigger] final(self).transactions@[k]).txn_id < final(self).next_txn_id by {
                    if k != i {
                        assert(final(self).transactions@[k] == old(self).transactions@[k]);
                    }
                }
                assert forall|a: int, b: int|
                    0 <= a < b < final(self).transactions@.len() implies (#[trigger] final(self).transactions@[a]).txn_id != (#[trigger] final(self).transactions@[b]).txn_id by {
                    assert(old(self).transactions@[a].txn_id != old(self).transactions@[b].txn_id);
                }
            }
            assert(final(self).transactions@[i as int].write_set@.len() == 0);
            assert(spec_commit_apply(final(table).tree@, final(self).transactions@[i as int].write_set@)
                == final(table).tree@);
            assert(old(self).transactions@[i as int].txn_id == txn_id);
            assert(final(self).transactions@[i as int].state is Committed);
            assert(final(table).tree@ == spec_commit_apply(
                old(table).tree@,
                old(self).transactions@[i as int].write_set@,
            ));
        }
    }

    /// Aborts: the transaction becomes `Aborted` and its undo log is
    /// replayed newest-first — inserts are deleted again, deletes restored —
    /// leaving the table as it stood before the transaction began.
    pub fn abort(&mut self, table: &mut Table, txn_id: u32)
        requires
            old(self).wf(),
            old(self).has_transaction(txn_id),
            ({
                let i = choose|i: int|
                    0 <= i < old(self).transactions@.len() && (#[trigger] old(self).transactions@[i]).txn_id == txn_id;
                &&& old(self).transactions@[i].state is Growing
                &&& (old(self).transactions@[i].write_set@.len() > 0 ==> old(table).wf())
            }),
        ensures
            final(self).wf(),
            old(table).wf() ==> final(table).wf(),
            exists|i: int|
                {
                    &&& 0 <= i < old(self).transactions@.len()
                    &&& (#[trigger] old(self).transactions@[i]).txn_id == txn_id
                    &&& final(self).transactions@[i].state is Aborted
                    &&& final(self).transactions@[i].write_set@.len() == 0
                    &&& final(self).transactions@[i].txn_id == txn_id
                    &&& final(table).tree@ == spec_abort_apply(
                        old(table).tree@,
                        old(self).transactions@[i].write_set@,
                    )
                    &&& (forall|k: int|
                        0 <= k < old(self).transactions@.len() && k != i ==> final(self).transactions@[k] == old(self).transactions@[k])
                },
            final(self).next_txn_id == old(self).next_txn_id,
            final(self).transactions@.len() == old(self).transactions@.len(),
    {
        let i = self.find_index(txn_id);
        proof {
            let w = choose|w: int|
                0 <= w < old(self).transactions@.len() && (#[trigger] old(self).transactions@[w]).txn_id == txn_id;
            assert(w == i);
        }
        {
            let tr = &mut self.transactions[i];
            tr.set_state(TransactionState::Aborted);
        }
        while self.transactions[i].write_set.len() > 0
            invariant
                i < self.transactions@.len(),
                self.transactions@.len() == old(self).transactions@.len(),
                self.next_txn_id == old(self).next_txn_id,
                forall|k: int|
                    0 <= k < old(self).transactions@.len() && k != i ==> self.transactions@[k]
                        == old(self).transactions@[k],
                self.transactions@[i as int].txn_id == txn_id,
                self.transactions@[i as int].state is Aborted,
                old(table).wf() ==> table.wf(),
                self.transactions@[i as int].write_set@.len() > 0 ==> table.wf(),
                spec_abort_apply(table.tree@, self.transactions@[i as int].write_set@)
                    == spec_abort_apply(
                    old(table).tree@,
                    old(self).transactions@[i as int].write_set@,
                ),
                old(self).wf(),
            decreases self.transactions@[i as int].write_set@.len(),
        {
            let wr_opt = self.transactions[i].pop_write_set();
            if let Some(wr) = wr_opt {
                match wr.wr_type {
                    WriteRecordType::Insert => table.apply_delete(wr.key),
                    WriteRecordType::Delete => table.rollback_delete(wr.rid),
                }
            }
        }
        proof {
            assert(final(self).wf()) by {
                assert forall|k: int|
                    0 <= k < final(self).transactions@.len() implies (#[trigger] final(self).transactions@[k]).txn_id < final(self).next_txn_id by {
                    if k != i {
                        assert(final(self).transactions@[k] == old(self).transactions@[k]);
                    }
                }
                assert forall|a: int, b: int|
                    0 <= a < b < final(self).transactions@.len() implies (#[trigger] final(self).transactions@[a]).txn_id != (#[trigger] final(self).transactions@[b]).txn_id by {
                    assert(old(self).transactions@[a].txn_id != old(self).transactions@[b].txn_id);
                }
            }
            assert(final(self).transactions@[i as int].write_set@.len() == 0);
            assert(spec_abort_apply(final(table).tree@, final(self).transactions@[i as int].write_set@)
                == final(table).tree@);
            assert(old(self).transactions@[i as int].txn_id == txn_id);
            assert(final(self).transactions@[i as int].state is Aborted);
            assert(final(table).tree@ == spec_abort_apply(
                old(table).tree@,
                old(self).transactions@[i as int].write_set@,
            ));
        }
    }
}

} // verus!
