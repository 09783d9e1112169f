//! Per-transaction state: identifier, isolation level, lifecycle state, and
//! the write set — an undo log consumed last-in-first-out on commit or abort.

use vstd::prelude::*;

verus! {

/// Recorded but not yet enforced: no isolation level alters read visibility
/// at this layer.
#[derive(Clone, Copy, Debug, PartialEq, Eq, Structural)]
pub enum IsolationLevel {
    ReadUncommited,
    ReadCommited,
    RepeatableRead,
    Serializable,
}

/// `Growing` accepts writes; `Committed` and `Aborted` are terminal.
#[derive(Clone, Copy, Debug, PartialEq, Eq, Structural)]
pub enum TransactionState {
    Growing,
    Committed,
    Aborted,
}

#[derive(Clone, Copy, Debug, PartialEq, Eq, Structural)]
pub enum WriteRecordType {
    Insert,
    Delete,
}

/// One undo entry: the operation performed, the key it touched, and the row
/// id needed to restore a deleted row.
#[derive(Clone, Copy, Debug, PartialEq, Eq, Structural)]
pub struct WriteRecord {
    pub wr_type: WriteRecordType,
    pub key: u32,
    pub rid: u32,
}

pub struct Transaction {
    pub txn_id: u32,
    pub iso_level: IsolationLevel,
    pub state: TransactionState,
    pub write_set: Vec<WriteRecord>,
}

impl Transaction {
    pub fn new(txn_id: u32, iso_level: IsolationLevel) -> (t: Transaction)
        ensures
            t.txn_id == txn_id,
            t.iso_level == iso_level,
            t.state is Growing,
            t.write_set@ == Seq::<WriteRecord>::empty(),
    {
        let t = Transaction { txn_id, iso_level, state: TransactionState::Growing, write_set: Vec::new() };
        proof {
            assert(t.write_set@ =~= Seq::<WriteRecord>::empty());
        }
        t
    }

    /// Appends an undo record; records are consumed in reverse order.
    pub fn push_write_record(&mut self, wr: WriteRecord)
        ensures
            final(self).write_set@ == old(self).write_set@.push(wr),
            final(self).txn_id == old(self).txn_id,
            final(self).iso_level == old(self).iso_level,
            final(self).state == old(self).state,
    {
        self.write_set.push(wr);
    }

    /// Removes and returns the most recently pushed undo record.
    pub fn pop_write_set(&mut self) -> (r: Option<WriteRecord>)
        ensures
            old(self).write_set@.len() == 0 ==> r is None && final(self).write_set@ == old(self).write_set@,
            old(self).write_set@.len() > 0 ==> r == Some(old(self).write_set@.last())
                && final(self).write_set@ == old(self).write_set@.drop_last(),
            final(self).txn_id == old(self).txn_id,
            final(self).iso_level == old(self).iso_level,
            final(self).state == old(self).state,
    {
        self.write_set.pop()
    }

    /// A one-way transition: nothing leads out of `Committed` or `Aborted`.
    pub fn set_state(&mut self, state: TransactionState)
        requires
            old(self).state is Growing,
        ensures
            final(self).state == state,
            final(self).txn_id == old(self).txn_id,
            final(self).iso_level == old(self).iso_level,
            final(self).write_set@ == old(self).write_set@,
    {
        self.state = state;
    }
}

} // verus!
