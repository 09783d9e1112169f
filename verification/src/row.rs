//! The fixed-width record stored in leaf cells: an integer key, then a
//! 32-byte username field and a 255-byte email field, both zero-padded.

use vstd::prelude::*;
use vstd::string::*;
use vstd::utf8::encode_utf8;
use crate::text::{
    dec_val, find_space, find_space_from, is_first_space, is_u32_decimal, no_space_before,
    no_space_between, parse_u32, str_eq,
};

verus! {

pub const USERNAME_SIZE: usize = 32;

pub const EMAIL_SIZE: usize = 255;

/// Bytes of the serialized record: 4 id bytes, then the two text fields.
pub const ROW_SIZE: usize = 291;

/// `b` extended with zero bytes up to length `n`.
pub open spec fn padded(b: Seq<u8>, n: nat) -> Seq<u8> {
    b + Seq::new((n - b.len()) as nat, |i: int| 0u8)
}

/// A fixed-size record, comparable by its integer key `id`.
#[derive(Debug)]
pub struct Row {
    pub id: u32,
    pub username: Vec<u8>,
    pub email: Vec<u8>,
}

/// The mathematical value of a [`Row`].
#[verifier::ext_equal]
pub struct RowV {
    pub id: u32,
    pub username: Seq<u8>,
    pub email: Seq<u8>,
}

impl RowV {
    /// Both text fields hold exactly their fixed width.
    pub open spec fn wf(self) -> bool {
        self.username.len() == USERNAME_SIZE && self.email.len() == EMAIL_SIZE
    }
}

impl View for Row {
    type V = RowV;

    open spec fn view(&self) -> RowV {
        RowV { id: self.id, username: self.username@, email: self.email@ }
    }
}

impl DeepView for Row {
    type V = RowV;

    open spec fn deep_view(&self) -> RowV {
        self@
    }
}

impl Row {
    /// Both text fields hold exactly their fixed width.
    pub open spec fn wf(self) -> bool {
        self@.wf()
    }
}

impl Clone for Row {
    fn clone(&self) -> (r: Self)
        ensures
            r@ == self@,
    {
        let r = Row { id: self.id, username: self.username.clone(), email: self.email.clone() };
        proof {
            assert(r.username@ =~= self.username@);
            assert(r.email@ =~= self.email@);
            assert(r@ =~= self@);
        }
        r
    }
}

impl PartialEq for Row {
    fn eq(&self, other: &Self) -> (r: bool) {
        let r = self.id == other.id && vec_u8_eq(&self.username, &other.username) && vec_u8_eq(
            &self.email,
            &other.email,
        );
        proof {
            if r {
                assert(self@ =~= other@);
            }
        }
        r
    }
}

impl vstd::std_specs::cmp::PartialEqSpecImpl for Row {
    open spec fn obeys_eq_spec() -> bool {
        true
    }

    open spec fn eq_spec(&self, other: &Self) -> bool {
        self@ == other@
    }
}

/// Byte-for-byte vector equality.
pub fn vec_u8_eq(a: &Vec<u8>, b: &Vec<u8>) -> (r: bool)
    ensures
        r == (a@ == b@),
{
    if a.len() != b.len() {
        return false;
    }
    let mut i: usize = 0;
    while i < a.len()
        invariant
            0 <= i <= a@.len(),
            a@.len() == b@.len(),
            forall|k: int| 0 <= k < i ==> a@[k] == b@[k],
        decreases a@.len() - i,
    {
        if a[i] != b[i] {
            return false;
        }
        i = i + 1;
    }
    proof {
        assert(a@ =~= b@);
    }
    true
}

/// Extends `v` with zero bytes up to length `n`.
fn pad_to(v: Vec<u8>, n: usize) -> (r: Vec<u8>)
    requires
        v@.len() <= n,
    ensures
        r@ == padded(v@, n as nat),
{
    let ghost orig = v@;
    let mut v = v;
    while v.len() < n
        invariant
            orig.len() <= v@.len() <= n,
            v@ == padded(orig, v@.len() as nat),
        decreases n - v@.len(),
    {
        v.push(0);
        proof {
            assert(v@ =~= padded(orig, v@.len() as nat));
        }
    }
    v
}

/// `s` splits on its spaces into exactly the four tokens of an insert
/// statement, the first being the keyword itself; `p1 < p2 < p3` are all
/// of its space positions.
pub open spec fn insert_shape(s: Seq<char>, p1: int, p2: int, p3: int) -> bool {
    &&& 0 <= p1 < p2 < p3 < s.len()
    &&& s[p1] == ' '
    &&& s[p2] == ' '
    &&& s[p3] == ' '
    &&& (forall|k: int| 0 <= k < s.len() && s[k] == ' ' ==> k == p1 || k == p2 || k == p3)
    &&& s.take(p1) == "insert"@
}

/// Some split of `s` has the shape of an insert statement.
pub open spec fn has_insert_shape(s: Seq<char>) -> bool {
    exists|p1: int, p2: int, p3: int| insert_shape(s, p1, p2, p3)
}

/// The shape and a parseable id together force the two text tokens to fit
/// their fixed-width fields; outside this, the record constructor would
/// reject its input.
pub open spec fn statement_fits(s: Seq<char>) -> bool {
    forall|p1: int, p2: int, p3: int|
        insert_shape(s, p1, p2, p3) && is_u32_decimal(s.subrange(p1 + 1, p2)) ==> {
            &&& encode_utf8(s.subrange(p2 + 1, p3)).len() <= USERNAME_SIZE
            &&& encode_utf8(s.skip(p3 + 1)).len() <= EMAIL_SIZE
        }
}

/// The row an insert statement with space positions `p1, p2, p3` denotes.
pub open spec fn row_of_statement(s: Seq<char>, p1: int, p2: int, p3: int, row: Row) -> bool {
    &&& row.id == dec_val(s.subrange(p1 + 1, p2))
    &&& row.username@ == padded(encode_utf8(s.subrange(p2 + 1, p3)), USERNAME_SIZE as nat)
    &&& row.email@ == padded(encode_utf8(s.skip(p3 + 1)), EMAIL_SIZE as nat)
}

impl Row {
    /// Builds a record from its key and text fields, zero-padding each text
    /// field to its fixed width.
    pub fn create(id: u32, u: &str, m: &str) -> (row: Row)
        requires
            encode_utf8(u@).len() <= USERNAME_SIZE,
            encode_utf8(m@).len() <= EMAIL_SIZE,
        ensures
            row.wf(),
            row.id == id,
            row.username@ == padded(encode_utf8(u@), USERNAME_SIZE as nat),
            row.email@ == padded(encode_utf8(m@), EMAIL_SIZE as nat),
    {
        let username = pad_to(u.as_bytes_vec(), USERNAME_SIZE);
        let email = pad_to(m.as_bytes_vec(), EMAIL_SIZE);
        Row { id, username, email }
    }

    /// Parses `insert <id> <username> <email>`: the statement must split on
    /// its spaces into exactly those four tokens, and the id must be a
    /// decimal `u32`.
    pub fn from_statement(statement: &str) -> (r: Result<Row, String>)
        requires
            statement_fits(statement@),
        ensures
            r is Ok <==> exists|p1: int, p2: int, p3: int|
                insert_shape(statement@, p1, p2, p3) && is_u32_decimal(
                    statement@.subrange(p1 + 1, p2),
                ),
            match r {
                Ok(row) => row.wf() && exists|p1: int, p2: int, p3: int|
                    insert_shape(statement@, p1, p2, p3) && is_u32_decimal(
                        statement@.subrange(p1 + 1, p2),
                    ) && row_of_statement(statement@, p1, p2, p3, row),
                Err(e) => if has_insert_shape(statement@) {
                    e@ == "invalid id"@
                } else {
                    e@ == "invalid insert statement"@
                },
            },
    {
        let ghost s = statement@;
        let n = statement.unicode_len();
        let p1_opt = find_space(statement);
        if p1_opt.is_none() {
            proof {
                assert forall|q1: int, q2: int, q3: int| !insert_shape(s, q1, q2, q3) by {
                    if insert_shape(s, q1, q2, q3) {
                        assert(s[q1] == ' ');
                    }
                }
            }
            return Err("invalid insert statement".to_owned());
        }
        let p1 = p1_opt.unwrap();
        let head = statement.substring_char(0, p1);
        if !str_eq(head, "insert") {
            proof {
                assert forall|q1: int, q2: int, q3: int| !insert_shape(s, q1, q2, q3) by {
                    if insert_shape(s, q1, q2, q3) {
                        lemma_shape_spaces(s, q1, q2, q3);
                        assert(q1 == p1) by {
                            if q1 < p1 {
                                assert(s[q1] == ' ');
                            }
                            if p1 < q1 {
                                assert(s[p1 as int] == ' ');
                            }
                        }
                        assert(s.take(q1) == head@);
                    }
                }
            }
            return Err("invalid insert statement".to_owned());
        }
        let p2_opt = find_space_from(statement, p1 + 1);
        if p2_opt.is_none() {
            proof {
                assert forall|q1: int, q2: int, q3: int| !insert_shape(s, q1, q2, q3) by {
                    if insert_shape(s, q1, q2, q3) {
                        lemma_shape_spaces(s, q1, q2, q3);
                        assert(q1 == p1) by {
                            if q1 < p1 {
                                assert(s[q1] == ' ');
                            }
                            if p1 < q1 {
                                assert(s[p1 as int] == ' ');
                            }
                        }
                        assert(s[q2] == ' ' && p1 + 1 <= q2 < s.len());
                    }
                }
            }
            return Err("invalid insert statement".to_owned());
        }
        let p2 = p2_opt.unwrap();
        let p3_opt = find_space_from(statement, p2 + 1);
        if p3_opt.is_none() {
            proof {
                assert forall|q1: int, q2: int, q3: int| !insert_shape(s, q1, q2, q3) by {
                    if insert_shape(s, q1, q2, q3) {
                        lemma_shape_agree(s, q1, q2, q3, p1 as int, p2 as int);
                        assert(s[q3] == ' ' && p2 + 1 <= q3 < s.len());
                    }
                }
            }
            return Err("invalid insert statement".to_owned());
        }
        let p3 = p3_opt.unwrap();
        let p4_opt = find_space_from(statement, p3 + 1);
        if p4_opt.is_some() {
            let ghost p4 = p4_opt.unwrap() as int;
            proof {
                assert forall|q1: int, q2: int, q3: int| !insert_shape(s, q1, q2, q3) by {
                    if insert_shape(s, q1, q2, q3) {
                        lemma_shape_agree(s, q1, q2, q3, p1 as int, p2 as int);
                        assert(q3 == p3) by {
                            if q3 < p3 {
                                assert(s[q3] == ' ');
                            }
                            if p3 < q3 {
                                lemma_shape_spaces(s, q1, q2, q3);
                                assert(s[p3 as int] == ' ');
                            }
                        }
                        assert(s[p4] == ' ');
                    }
                }
            }
            return Err("invalid insert statement".to_owned());
        }
        assert(insert_shape(s, p1 as int, p2 as int, p3 as int));
        proof {
            assert forall|q1: int, q2: int, q3: int|
                insert_shape(s, q1, q2, q3) implies q1 == p1 && q2 == p2 && q3 == p3 by {
                lemma_shape_agree(s, q1, q2, q3, p1 as int, p2 as int);
                if q3 < p3 {
                    assert(s[q3] == ' ');
                }
                if p3 < q3 {
                    lemma_shape_spaces(s, q1, q2, q3);
                    assert(s[p3 as int] == ' ');
                }
            }
        }
        let id_str = statement.substring_char(p1 + 1, p2);
        match parse_u32(id_str) {
            None => Err("invalid id".to_owned()),
            Some(id) => {
                let name = statement.substring_char(p2 + 1, p3);
                let email = statement.substring_char(p3 + 1, n);
                assert(email@ == s.skip(p3 + 1));
                Ok(Self::create(id, name, email))
            },
        }
    }
}

/// The space positions of an insert-shaped statement are the only spaces,
/// so nothing between consecutive ones is a space.
proof fn lemma_shape_spaces(s: Seq<char>, q1: int, q2: int, q3: int)
    requires
        insert_shape(s, q1, q2, q3),
    ensures
        no_space_before(s, q1),
        no_space_between(s, q1 + 1, q2),
        no_space_between(s, q2 + 1, q3),
        no_space_between(s, q3 + 1, s.len() as int),
{
}

/// A shape's first two space positions agree with the first space of `s`
/// and the first space after it.
proof fn lemma_shape_agree(s: Seq<char>, q1: int, q2: int, q3: int, p1: int, p2: int)
    requires
        insert_shape(s, q1, q2, q3),
        is_first_space(s, p1),
        p1 < p2 < s.len(),
        s[p2] == ' ',
        no_space_between(s, p1 + 1, p2),
    ensures
        q1 == p1,
        q2 == p2,
{
    lemma_shape_spaces(s, q1, q2, q3);
    assert(q1 == p1) by {
        if q1 < p1 {
            assert(s[q1] == ' ');
        }
        if p1 < q1 {
            assert(s[p1] == ' ');
        }
    }
    assert(q2 == p2) by {
        if q2 < p2 {
            assert(s[q2] == ' ');
        }
        if p2 < q2 {
            assert(s[p2] == ' ');
        }
    }
}

} // verus!
