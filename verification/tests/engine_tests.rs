use treedb::node::NodeType;
use treedb::query::{execute_statement, prepare_statement, Statement, StatementType};
use treedb::row::Row;
use treedb::table::{Table, TableError};
use treedb::text::u32_to_string;
use treedb::transaction::{IsolationLevel, TransactionState};
use treedb::transaction_manager::TransactionManager;

#[test]
fn transaction_operations() {
    let mut tm = TransactionManager::new();
    let txn_id = tm.begin(IsolationLevel::ReadUncommited);
    assert_eq!(txn_id, 1);
    {
        let transaction = tm.get_transaction(&1);
        assert_eq!(transaction.txn_id, 1);
        assert_eq!(transaction.state, TransactionState::Growing);
    }
    assert_eq!(tm.transactions.len(), 1);

    let mut table = Table::new();
    tm.commit(&mut table, 1);
    let tx = tm.get_transaction(&1);
    assert_eq!(tx.txn_id, 1);
    assert_eq!(tx.state, TransactionState::Committed);
}

#[test]
fn execute_transaction() {
    let mut tm = TransactionManager::new();
    let mut table = Table::new();
    let row = Row::create(1, "apple", "apple@apple.com");

    let txn_id = tm.begin(IsolationLevel::ReadCommited);
    let i = tm.transactions.len() - 1;
    let rid = table.insert(&row, &mut tm.transactions[i]).unwrap();
    let inserted_row = table.get(rid, &mut tm.transactions[i]).unwrap();
    assert_eq!(row, inserted_row);
    tm.commit(&mut table, txn_id);
    assert_eq!(tm.get_transaction(&txn_id).state, TransactionState::Committed);

    // the row stays visible after commit
    let t2 = tm.begin(IsolationLevel::ReadCommited);
    let i = tm.transactions.len() - 1;
    assert_eq!(table.get(rid, &mut tm.transactions[i]), Some(row));
    tm.commit(&mut table, t2);
}

#[test]
fn abort_transaction() {
    let mut tm = TransactionManager::new();
    let mut table = Table::new();
    let row = Row::create(1, "apple", "apple@apple.com");

    let txn_id = tm.begin(IsolationLevel::ReadCommited);
    let i = tm.transactions.len() - 1;
    let rid = table.insert(&row, &mut tm.transactions[i]).unwrap();
    tm.abort(&mut table, txn_id);
    assert_eq!(tm.get_transaction(&txn_id).state, TransactionState::Aborted);

    let t2 = tm.begin(IsolationLevel::ReadCommited);
    let i = tm.transactions.len() - 1;
    assert_eq!(table.get(rid, &mut tm.transactions[i]), None);
    tm.commit(&mut table, t2);

    // the aborted insert's cell is physically gone: the tree holds the same
    // cell set as before the transaction began
    assert_eq!(table.tree.nodes()[0].num_of_cells, 0);
    assert_eq!(table.tree.nodes()[0].cells.len(), 0);
    assert_eq!(table.tree.to_string(), "- leaf (size 0)\n");

    // an aborted transaction remains in the map
    assert!(tm
        .transactions
        .iter()
        .any(|t| t.state == TransactionState::Aborted));
}

#[test]
fn abort_restores_all_inserted_rows() {
    let mut tm = TransactionManager::new();
    let mut table = Table::new();

    let txn_id = tm.begin(IsolationLevel::ReadCommited);
    let i = tm.transactions.len() - 1;
    for id in [3u32, 1, 2] {
        table
            .insert(&Row::create(id, "u", "e"), &mut tm.transactions[i])
            .unwrap();
    }
    tm.abort(&mut table, txn_id);

    let t2 = tm.begin(IsolationLevel::ReadCommited);
    let i = tm.transactions.len() - 1;
    for id in [1u32, 2, 3] {
        assert_eq!(table.get(id, &mut tm.transactions[i]), None);
    }
    tm.commit(&mut table, t2);
    // no dangling undo entries remain
    assert_eq!(tm.get_transaction(&txn_id).write_set.len(), 0);
    // and no cells either: the tree is structurally what it was
    assert_eq!(table.tree.nodes()[0].cells.len(), 0);
}

#[test]
fn insert_delete_commit_reads_none() {
    let mut tm = TransactionManager::new();
    let mut table = Table::new();
    let row = Row::create(9, "u", "e");

    let txn_id = tm.begin(IsolationLevel::ReadCommited);
    let i = tm.transactions.len() - 1;
    table.insert(&row, &mut tm.transactions[i]).unwrap();
    table.delete(9, &mut tm.transactions[i]).unwrap();
    tm.commit(&mut table, txn_id);

    let t2 = tm.begin(IsolationLevel::ReadCommited);
    let i = tm.transactions.len() - 1;
    assert_eq!(table.get(9, &mut tm.transactions[i]), None);
    tm.commit(&mut table, t2);
    assert_eq!(tm.get_transaction(&txn_id).write_set.len(), 0);
    // the committed delete removed the cell physically
    assert_eq!(table.tree.nodes()[0].cells.len(), 0);
}

#[test]
fn duplicate_key_is_rejected() {
    let mut tm = TransactionManager::new();
    let mut table = Table::new();
    let txn_id = tm.begin(IsolationLevel::ReadCommited);
    let i = tm.transactions.len() - 1;
    table
        .insert(&Row::create(5, "a", "b"), &mut tm.transactions[i])
        .unwrap();
    let r = table.insert(&Row::create(5, "c", "d"), &mut tm.transactions[i]);
    assert_eq!(r, Err(TableError::DuplicateKey));
    tm.commit(&mut table, txn_id);
}

#[test]
fn delete_missing_key_errors() {
    let mut tm = TransactionManager::new();
    let mut table = Table::new();
    let txn_id = tm.begin(IsolationLevel::ReadCommited);
    let i = tm.transactions.len() - 1;
    let r = table.delete(42, &mut tm.transactions[i]);
    assert_eq!(r, Err(TableError::KeyNotFound));
    tm.commit(&mut table, txn_id);
}

#[test]
fn begin_ids_are_strictly_increasing() {
    let mut tm = TransactionManager::new();
    let a = tm.begin(IsolationLevel::Serializable);
    let b = tm.begin(IsolationLevel::ReadUncommited);
    let c = tm.begin(IsolationLevel::RepeatableRead);
    assert!(a < b && b < c);
    assert_eq!((a, b, c), (1, 2, 3));
}

#[test]
fn leaf_split_scenario() {
    // one more row than a single leaf holds: the root is promoted and the
    // two leaves partition the keys with no gap or overlap
    let mut tm = TransactionManager::new();
    let mut table = Table::new();
    let txn_id = tm.begin(IsolationLevel::ReadCommited);
    let i = tm.transactions.len() - 1;
    for id in 1u32..=14 {
        table
            .insert(&Row::create(id, "user", "mail"), &mut tm.transactions[i])
            .unwrap();
    }
    tm.commit(&mut table, txn_id);

    let nodes = table.tree.nodes();
    assert_eq!(nodes.len(), 3);
    assert_eq!(nodes[0].node_type, NodeType::Internal);
    assert!(nodes[0].is_root);
    assert_eq!(nodes[0].num_of_cells, 1);
    let left = &nodes[1];
    let right = &nodes[2];
    assert_eq!(left.node_type, NodeType::Leaf);
    assert_eq!(right.node_type, NodeType::Leaf);
    let left_keys: Vec<u32> = left.cells.iter().map(|c| c.key).collect();
    let right_keys: Vec<u32> = right.cells.iter().map(|c| c.key).collect();
    assert_eq!(left_keys, (1..=7).collect::<Vec<u32>>());
    assert_eq!(right_keys, (8..=14).collect::<Vec<u32>>());
    assert_eq!(left.next_leaf_offset, 2);

    let mut expected = String::new();
    expected.push_str("- internal (size 1)\n");
    expected.push_str("  - leaf (size 7)\n");
    for id in 1..=7 {
        expected.push_str(&format!("    - {}\n", id));
    }
    expected.push_str("  - key 7\n");
    expected.push_str("  - leaf (size 7)\n");
    for id in 8..=14 {
        expected.push_str(&format!("    - {}\n", id));
    }
    assert_eq!(table.tree.to_string(), expected);

    // every key is still readable after the split
    let t2 = tm.begin(IsolationLevel::ReadCommited);
    let i = tm.transactions.len() - 1;
    for id in 1u32..=14 {
        let row = table.get(id, &mut tm.transactions[i]).unwrap();
        assert_eq!(row.id, id);
    }
    tm.commit(&mut table, t2);
}

#[test]
fn execute_statement_round_trip() {
    let mut tm = TransactionManager::new();
    let mut table = Table::new();

    let st = prepare_statement("insert 3 ann ann@x.y").unwrap();
    assert_eq!(execute_statement(&mut table, &mut tm, &st), "Executed.");

    let st = prepare_statement("insert 3 bob bob@x.y").unwrap();
    assert_eq!(
        execute_statement(&mut table, &mut tm, &st),
        "Error: duplicate key."
    );

    let st = prepare_statement("select 3").unwrap();
    assert_eq!(execute_statement(&mut table, &mut tm, &st), "(3)");

    let st = prepare_statement("delete 3").unwrap();
    assert_eq!(execute_statement(&mut table, &mut tm, &st), "Executed.");

    let st = prepare_statement("delete 3").unwrap();
    assert_eq!(
        execute_statement(&mut table, &mut tm, &st),
        "Error: key not found."
    );

    let st = prepare_statement("select 3").unwrap();
    assert_eq!(execute_statement(&mut table, &mut tm, &st), "");

    // a full select lists every live row, one id line each
    for stmt in ["insert 2 bo bo@x.y", "insert 1 cy cy@x.y"] {
        let st = prepare_statement(stmt).unwrap();
        assert_eq!(execute_statement(&mut table, &mut tm, &st), "Executed.");
    }
    let st = prepare_statement("select").unwrap();
    assert_eq!(execute_statement(&mut table, &mut tm, &st), "(1)\n(2)");
}

#[test]
fn decimal_rendering_is_exact() {
    assert_eq!(u32_to_string(0), "0");
    assert_eq!(u32_to_string(7), "7");
    assert_eq!(u32_to_string(4294967295), "4294967295");
    assert_eq!(u32_to_string(1080), "1080");
}

#[test]
fn select_skips_tombstoned_rows() {
    let mut tm = TransactionManager::new();
    let mut table = Table::new();
    let txn_id = tm.begin(IsolationLevel::ReadCommited);
    let i = tm.transactions.len() - 1;
    for id in [2u32, 1, 3] {
        table
            .insert(&Row::create(id, "u", "e"), &mut tm.transactions[i])
            .unwrap();
    }
    table.delete(2, &mut tm.transactions[i]).unwrap();
    tm.commit(&mut table, txn_id);

    let all = Statement { statement_type: StatementType::Select, row: None };
    let rows = table.select(&all);
    let keys: Vec<u32> = rows.iter().map(|r| r.id).collect();
    assert_eq!(keys, vec![1, 3]);

    let one = Statement { statement_type: StatementType::Select, row: Some(Row::create(3, "", "")) };
    let rows = table.select(&one);
    assert_eq!(rows.len(), 1);
    assert_eq!(rows[0], Row::create(3, "u", "e"));
}
