//! The statement layer: parses textual commands into statements and drives
//! them through the table under an auto-committed transaction.

use vstd::prelude::*;
use vstd::string::*;
use crate::row::{has_insert_shape, insert_shape, row_of_statement, statement_fits, Row, RowV,
    EMAIL_SIZE, USERNAME_SIZE,
};
use crate::table::{insert_pre, lemma_erase_after_mark, spec_erase, spec_select_rows,
    spec_table_insert, spec_found_live, Table, TableError,
};
use crate::text::{
    dec_str, find_space, has_prefix, is_first_space, is_u32_decimal, dec_val, no_space_before,
    parse_u32, str_eq, str_starts_with, u32_to_string,
};
use crate::transaction::IsolationLevel;
use crate::transaction_manager::{spec_commit_apply, TransactionManager};

verus! {

#[derive(Debug, PartialEq, Eq, Structural, Clone, Copy)]
pub enum MetaCommand {
    Unrecognized,
    Exit,
    PrintTree,
}

#[derive(Debug, PartialEq, Eq, Structural, Clone, Copy)]
pub enum StatementType {
    Select,
    Insert,
    Delete,
}

#[derive(Debug)]
pub struct Statement {
    pub statement_type: StatementType,
    pub row: Option<Row>,
}

/// Recognizes the meta commands `.exit` and `.tree`.
pub fn handle_meta_command(command: &str) -> (r: MetaCommand)
    ensures
        command@ == ".exit"@ ==> r is Exit,
        command@ == ".tree"@ ==> r is PrintTree,
        command@ != ".exit"@ && command@ != ".tree"@ ==> r is Unrecognized,
{
    proof {
        reveal_strlit(".exit");
        reveal_strlit(".tree");
        assert(".exit"@ != ".tree"@) by {
            assert(".exit"@[1] == 'e' && ".tree"@[1] == 't');
        }
    }
    if str_eq(command, ".exit") {
        MetaCommand::Exit
    } else if str_eq(command, ".tree") {
        MetaCommand::PrintTree
    } else {
        MetaCommand::Unrecognized
    }
}

/// A row carrying only a key: both text fields all zeroes, as `<action>
/// <id>` statements build them.
pub open spec fn blank_row(row: Row, id: nat) -> bool {
    &&& row.id == id
    &&& row.username@ == Seq::new(USERNAME_SIZE as nat, |i: int| 0u8)
    &&& row.email@ == Seq::new(EMAIL_SIZE as nat, |i: int| 0u8)
}

/// What a statement of the form `<action> <id>` parses to: without a space
/// there is no id; with one, everything after the first space must be a
/// decimal `u32`, which becomes a blank row's key; anything else is the
/// invalid-id error.
pub open spec fn action_with_id_spec(
    input: Seq<char>,
    statement_type: StatementType,
    r: Result<Statement, String>,
) -> bool {
    &&& (r is Ok <==> no_space_before(input, input.len() as int) || (exists|p: int|
        is_first_space(input, p) && is_u32_decimal(#[trigger] input.skip(p + 1))))
    &&& match r {
        Ok(st) => {
            &&& st.statement_type == statement_type
            &&& (no_space_before(input, input.len() as int) ==> st.row is None)
            &&& (forall|p: int|
                is_first_space(input, p) && is_u32_decimal(#[trigger] input.skip(p + 1))
                    ==> st.row is Some && blank_row(st.row.unwrap(), dec_val(input.skip(p + 1))))
        },
        Err(e) => e@ == "invalid id provided"@,
    }
}

pub fn parse_action_with_id(input: &str, statement_type: StatementType) -> (r: Result<
    Statement,
    String,
>)
    ensures
        action_with_id_spec(input@, statement_type, r),
{
    let n = input.unicode_len();
    match find_space(input) {
        None => Ok(Statement { statement_type, row: None }),
        Some(p) => {
            let id_str = input.substring_char(p + 1, n);
            match parse_u32(id_str) {
                Some(id) => {
                    proof {
                        reveal_strlit("");
                        assert(encode_utf8_empty_len());
                    }
                    let row = Row::create(id, "", "");
                    proof {
                        assert(row.username@ =~= Seq::new(USERNAME_SIZE as nat, |i: int| 0u8));
                        assert(row.email@ =~= Seq::new(EMAIL_SIZE as nat, |i: int| 0u8));
                    }
                    let st = Statement { statement_type, row: Some(row) };
                    proof {
                        assert forall|q: int|
                            is_first_space(input@, q) && is_u32_decimal(
                                #[trigger] input@.skip(q + 1),
                            ) implies st.row is Some && blank_row(
                            st.row.unwrap(),
                            dec_val(input@.skip(q + 1)),
                        ) by {
                            assert(q == p);
                        }
                    }
                    Ok(st)
                },
                None => {
                    proof {
                        assert forall|q: int|
                            !(is_first_space(input@, q) && is_u32_decimal(
                                #[trigger] input@.skip(q + 1),
                            )) by {
                            if is_first_space(input@, q) {
                                assert(q == p);
                            }
                        }
                    }
                    Err("invalid id provided".to_owned())
                },
            }
        },
    }
}

/// The empty string encodes to no bytes.
pub open spec fn encode_utf8_empty_len() -> bool {
    vstd::utf8::encode_utf8(Seq::<char>::empty()).len() == 0
}

/// Dispatches on the statement keyword: `select` and `delete` take an
/// optional id and carry a blank row keyed by it; `insert` takes the full
/// four-token form and carries the parsed row; anything else is rejected.
pub fn prepare_statement(input: &str) -> (r: Result<Statement, String>)
    requires
        statement_fits(input@),
    ensures
        has_prefix(input@, "select"@) ==> action_with_id_spec(input@, StatementType::Select, r),
        !has_prefix(input@, "select"@) && has_prefix(input@, "delete"@) ==> action_with_id_spec(
            input@,
            StatementType::Delete,
            r,
        ),
        !has_prefix(input@, "select"@) && !has_prefix(input@, "delete"@) && has_prefix(
            input@,
            "insert"@,
        ) ==> {
            &&& (r is Ok <==> exists|p1: int, p2: int, p3: int|
                insert_shape(input@, p1, p2, p3) && is_u32_decimal(input@.subrange(p1 + 1, p2)))
            &&& match r {
                Ok(st) => {
                    &&& st.statement_type is Insert
                    &&& st.row is Some
                    &&& st.row.unwrap().wf()
                    &&& exists|p1: int, p2: int, p3: int|
                        insert_shape(input@, p1, p2, p3) && is_u32_decimal(
                            input@.subrange(p1 + 1, p2),
                        ) && row_of_statement(input@, p1, p2, p3, st.row.unwrap())
                },
                Err(e) => if has_insert_shape(input@) {
                    e@ == "invalid id"@
                } else {
                    e@ == "invalid insert statement"@
                },
            }
        },
        !has_prefix(input@, "select"@) && !has_prefix(input@, "delete"@) && !has_prefix(
            input@,
            "insert"@,
        ) ==> match r {
            Ok(_) => false,
            Err(e) => e@ == "unrecognized statement"@,
        },
{
    proof {
        reveal_strlit("select");
        reveal_strlit("delete");
        reveal_strlit("insert");
    }
    if str_starts_with(input, "select") {
        return parse_action_with_id(input, StatementType::Select);
    }
    if str_starts_with(input, "delete") {
        return parse_action_with_id(input, StatementType::Delete);
    }
    if str_starts_with(input, "insert") {
        return match Row::from_statement(input) {
            Ok(row) => Ok(Statement { statement_type: StatementType::Insert, row: Some(row) }),
            Err(e) => Err(e),
        };
    }
    Err("unrecognized statement".to_owned())
}

/// One `(<id>)` line per row, newline-separated, no trailing newline.
pub open spec fn spec_rows_render(rows: Seq<RowV>, j: int) -> Seq<char>
    decreases rows.len() - j,
{
    if j < 0 || j >= rows.len() {
        Seq::empty()
    } else {
        "("@ + dec_str(rows[j].id as nat) + ")"@ + (if j + 1 < rows.len() {
            "\n"@
        } else {
            Seq::empty()
        }) + spec_rows_render(rows, j + 1)
    }
}

/// Renders the rows a select yields, matching [`spec_rows_render`].
fn rows_to_string(rows: &Vec<Row>, j: usize) -> (r: String)
    requires
        j <= rows@.len(),
    ensures
        r@ == spec_rows_render(rows.deep_view(), j as int),
    decreases rows@.len() - j,
{
    if j >= rows.len() {
        let r = String::new();
        proof {
            assert(r@ =~= spec_rows_render(rows.deep_view(), j as int));
        }
        r
    } else {
        let mut r = String::from_str("(");
        proof {
            assert(rows.deep_view()[j as int] == rows@[j as int]@);
        }
        r.append(u32_to_string(rows[j].id).as_str());
        r.append(")");
        if j + 1 < rows.len() {
            r.append("\n");
        }
        let rest = rows_to_string(rows, j + 1);
        r.append(rest.as_str());
        proof {
            assert(r@ =~= spec_rows_render(rows.deep_view(), j as int));
        }
        r
    }
}

/// Runs one statement under a fresh transaction that is committed once the
/// operation is done — the manager's auto-commit path — and renders the
/// outcome. Select renders the rows found — one `(<id>)` line each — and
/// Insert and Delete report success or the table's error.
pub fn execute_statement(table: &mut Table, tm: &mut TransactionManager, statement: &Statement) -> (r:
    String)
    requires
        old(table).wf(),
        old(tm).wf(),
        old(tm).next_txn_id < u32::MAX,
        statement.statement_type is Insert ==> statement.row is Some && insert_pre(
            old(table).tree@,
            statement.row.unwrap()@,
        ),
        statement.statement_type is Delete ==> statement.row is Some,
    ensures
        final(tm).wf(),
        final(table).wf(),
        statement.statement_type is Select ==> final(table).tree@ == old(table).tree@ && r@
            == spec_rows_render(spec_select_rows(old(table).tree@, statement.row), 0),
        statement.statement_type is Insert && !spec_found_live(
            old(table).tree@,
            statement.row.unwrap()@.id,
        ) ==> r@ == "Executed."@ && final(table).tree@ == spec_table_insert(
            old(table).tree@,
            statement.row.unwrap()@,
        ),
        statement.statement_type is Insert && spec_found_live(
            old(table).tree@,
            statement.row.unwrap()@.id,
        ) ==> r@ == "Error: duplicate key."@,
        statement.statement_type is Delete && spec_found_live(
            old(table).tree@,
            statement.row.unwrap().id,
        ) ==> r@ == "Executed."@ && final(table).tree@ == spec_erase(
            old(table).tree@,
            statement.row.unwrap().id,
        ),
        statement.statement_type is Delete && !spec_found_live(
            old(table).tree@,
            statement.row.unwrap().id,
        ) ==> r@ == "Error: key not found."@ && final(table).tree@ == old(table).tree@,
    {
    proof {
        reveal_strlit("Executed.");
        reveal_strlit("Error: duplicate key.");
        reveal_strlit("Error: key not found.");
        reveal_strlit("(");
        reveal_strlit(")");
        reveal_strlit("");
    }
    let txn_id = tm.begin(IsolationLevel::ReadCommited);
    let i = tm.transactions.len() - 1;
    proof {
        assert(tm.transactions@[i as int].txn_id == txn_id);
    }
    match statement.statement_type {
        StatementType::Select => {
            let rows = table.select(statement);
            proof {
                assert(tm.has_transaction(txn_id)) by {
                    assert(tm.transactions@[i as int].txn_id == txn_id);
                }
            }
            tm.commit(table, txn_id);
            rows_to_string(&rows, 0)
        },
        StatementType::Insert => {
            let row = statement.row.as_ref().unwrap();
            let outcome = {
                let tr = &mut tm.transactions[i];
                table.insert(row, tr)
            };
            proof {
                assert(tm.wf()) by {
                    assert forall|a: int, b: int|
                        0 <= a < b < tm.transactions@.len() implies (#[trigger] tm.transactions@[a]).txn_id
                        != (#[trigger] tm.transactions@[b]).txn_id by {}
                }
                assert(tm.has_transaction(txn_id)) by {
                    assert(tm.transactions@[i as int].txn_id == txn_id);
                }
                assert(tm.transactions@[i as int].state is Growing);
            }
            match outcome {
                Ok(_) => {
                    proof {
                        let ws = tm.transactions@[i as int].write_set@;
                        assert(ws.len() == 1);
                        assert forall|k: int|
                            0 <= k < ws.len() implies !((#[trigger] ws[k]).wr_type is Delete) by {
                            assert(ws[0].wr_type is Insert);
                        }
                        let ghost tnow = table.tree@;
                        assert(spec_commit_apply(tnow, ws) == tnow) by {
                            assert(spec_commit_apply(tnow, ws.drop_last()) == tnow);
                        }
                    }
                    tm.commit(table, txn_id);
                    String::from_str("Executed.")
                },
                Err(_) => {
                    tm.abort(table, txn_id);
                    String::from_str("Error: duplicate key.")
                },
            }
        },
        StatementType::Delete => {
            let row = statement.row.as_ref().unwrap();
            let outcome = {
                let tr = &mut tm.transactions[i];
                table.delete(row.id, tr)
            };
            proof {
                assert(tm.wf()) by {
                    assert forall|a: int, b: int|
                        0 <= a < b < tm.transactions@.len() implies (#[trigger] tm.transactions@[a]).txn_id
                        != (#[trigger] tm.transactions@[b]).txn_id by {}
                }
                assert(tm.has_transaction(txn_id)) by {
                    assert(tm.transactions@[i as int].txn_id == txn_id);
                }
                assert(tm.transactions@[i as int].state is Growing);
            }
            match outcome {
                Ok(_) => {
                    proof {
                        lemma_erase_after_mark(old(table).tree@, row.id);
                        let ws = tm.transactions@[i as int].write_set@;
                        assert(ws.len() == 1);
                        let ghost tnow = table.tree@;
                        assert(spec_commit_apply(tnow, ws) == spec_erase(tnow, row.id)) by {
                            assert(spec_commit_apply(spec_erase(tnow, row.id), ws.drop_last())
                                == spec_erase(tnow, row.id));
                        }
                    }
                    tm.commit(table, txn_id);
                    String::from_str("Executed.")
                },
                Err(_) => {
                    tm.abort(table, txn_id);
                    String::from_str("Error: key not found.")
                },
            }
        },
    }
}

} // verus!
