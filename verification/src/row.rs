//! The fixed-width row: a 32-bit id, a 32-byte name and a 255-byte email,
//! packed big-endian into exactly `ROW_SIZE` bytes.  The tree itself treats
//! the packed bytes as an opaque blob; only this module looks inside.

use crate::btree::utils::{be32, be32_val, read_bytes_from, read_u32_at, write_opt_u32_to, zeroes};
use crate::error::PrepareErr;
use vstd::prelude::*;

verus! {

pub const ID_SIZE: usize = 4;

pub const USERNAME_SIZE: usize = 32;

pub const EMAIL_SIZE: usize = 255;

/// Total width of a packed row: id, name and email.
pub const ROW_SIZE: usize = 4 + 32 + 255;

/// The mathematical content of a row.
#[verifier::ext_equal]
pub struct RowV {
    pub key: u32,
    pub username: Seq<u8>,
    pub email: Seq<u8>,
}

/// One table row.  The name and email are zero-padded to their fixed widths.
pub struct Row {
    pub key: u32,
    username: Vec<u8>,
    email: Vec<u8>,
}

impl View for Row {
    type V = RowV;

    closed spec fn view(&self) -> RowV {
        RowV { key: self.key, username: self.username@, email: self.email@ }
    }
}

/// The packed big-endian byte form of a row.
pub open spec fn spec_row_bytes(r: RowV) -> Seq<u8> {
    be32(r.key) + r.username + r.email
}

/// The row stored by `ROW_SIZE` packed bytes.
pub open spec fn spec_row_of_bytes(b: Seq<u8>) -> RowV
    recommends
        b.len() == ROW_SIZE,
{
    RowV {
        key: be32_val(b.subrange(0, 4)),
        username: b.subrange(4, 36),
        email: b.subrange(36, 291),
    }
}

impl Row {
    /// A row is well formed when its fields have their fixed widths.
    pub open spec fn wf(&self) -> bool {
        self@.username.len() == USERNAME_SIZE && self@.email.len() == EMAIL_SIZE
    }

    /// Build a row from a key and raw name and email bytes, padding both with
    /// zeroes; strings beyond the fixed widths are rejected.
    pub fn build(key: u32, name: &[u8], mail: &[u8]) -> (r: Result<Self, PrepareErr>)
        ensures
            name@.len() > USERNAME_SIZE || mail@.len() > EMAIL_SIZE <==> r is Err,
            r matches Err(e) ==> e is StringTooLong,
            r matches Ok(row) ==> {
                &&& row.wf()
                &&& row@.key == key
                &&& row@.username == name@ + zeroes((USERNAME_SIZE - name@.len()) as nat)
                &&& row@.email == mail@ + zeroes((EMAIL_SIZE - mail@.len()) as nat)
            },
    {
        if name.len() > USERNAME_SIZE || mail.len() > EMAIL_SIZE {
            return Err(PrepareErr::StringTooLong(String::from_str("String is too long.")));
        }
        let mut username: Vec<u8> = Vec::new();
        let mut i: usize = 0;
        while i < name.len()
            invariant
                i <= name@.len() <= USERNAME_SIZE,
                username@ == name@.subrange(0, i as int),
            decreases name@.len() - i,
        {
            username.push(name[i]);
            i = i + 1;
            proof {
                assert(username@ =~= name@.subrange(0, i as int));
            }
        }
        while username.len() < USERNAME_SIZE
            invariant
                name@.len() <= username@.len() <= USERNAME_SIZE,
                username@ == name@ + zeroes((username@.len() - name@.len()) as nat),
            decreases USERNAME_SIZE - username@.len(),
        {
            username.push(0u8);
            proof {
                assert(username@ =~= name@ + zeroes((username@.len() - name@.len()) as nat));
            }
        }
        let mut email: Vec<u8> = Vec::new();
        let mut j: usize = 0;
        while j < mail.len()
            invariant
                j <= mail@.len() <= EMAIL_SIZE,
                email@ == mail@.subrange(0, j as int),
            decreases mail@.len() - j,
        {
            email.push(mail[j]);
            j = j + 1;
            proof {
                assert(email@ =~= mail@.subrange(0, j as int));
            }
        }
        while email.len() < EMAIL_SIZE
            invariant
                mail@.len() <= email@.len() <= EMAIL_SIZE,
                email@ == mail@ + zeroes((email@.len() - mail@.len()) as nat),
            decreases EMAIL_SIZE - email@.len(),
        {
            email.push(0u8);
            proof {
                assert(email@ =~= mail@ + zeroes((email@.len() - mail@.len()) as nat));
            }
        }
        proof {
            assert(name@.subrange(0, name@.len() as int) =~= name@);
            assert(mail@.subrange(0, mail@.len() as int) =~= mail@);
        }
        Ok(Self { key, username, email })
    }

    /// Unpack a row from its `ROW_SIZE` byte form.
    pub fn deserialize_from(buf: &Vec<u8>) -> (r: Self)
        requires
            buf@.len() == ROW_SIZE,
        ensures
            r@ == spec_row_of_bytes(buf@),
            r.wf(),
    {
        let key = read_u32_at(buf, 0);
        let username = read_bytes_from(buf, 4, USERNAME_SIZE);
        let email = read_bytes_from(buf, 36, EMAIL_SIZE);
        Self { key, username, email }
    }

    /// Pack the row into its `ROW_SIZE` byte form.
    pub fn serialize(&self) -> (r: Vec<u8>)
        requires
            self.wf(),
        ensures
            r@ == spec_row_bytes(self@),
            r@.len() == ROW_SIZE,
    {
        let mut buf: Vec<u8> = Vec::new();
        write_opt_u32_to(&mut buf, Some(self.key));
        let mut i: usize = 0;
        while i < self.username.len()
            invariant
                i <= self.username@.len(),
                buf@ == be32(self.key) + self.username@.subrange(0, i as int),
            decreases self.username@.len() - i,
        {
            buf.push(self.username[i]);
            i = i + 1;
            proof {
                assert(buf@ =~= be32(self.key) + self.username@.subrange(0, i as int));
            }
        }
        let mut j: usize = 0;
        while j < self.email.len()
            invariant
                self.wf(),
                j <= self.email@.len(),
                buf@ == be32(self.key) + self.username@ + self.email@.subrange(0, j as int),
            decreases self.email@.len() - j,
        {
            buf.push(self.email[j]);
            j = j + 1;
            proof {
                assert(buf@ =~= be32(self.key) + self.username@ + self.email@.subrange(
                    0,
                    j as int,
                ));
            }
        }
        proof {
            assert(self.username@.subrange(0, self.username@.len() as int) =~= self.username@);
            assert(self.email@.subrange(0, self.email@.len() as int) =~= self.email@);
            assert(buf@ =~= spec_row_bytes(self@));
        }
        buf
    }

    /// The row's key.
    pub fn key(&self) -> (r: u32)
        ensures
            r == self@.key,
    {
        self.key
    }

    /// The raw name bytes, zero padding included.
    pub fn username(&self) -> (r: &Vec<u8>)
        ensures
            r@ == self@.username,
    {
        &self.username
    }

    /// The raw email bytes, zero padding included.
    pub fn email(&self) -> (r: &Vec<u8>)
        ensures
            r@ == self@.email,
    {
        &self.email
    }
}

/// Packing a well-formed row and unpacking the bytes yields the same row.
pub proof fn lemma_row_round_trip(r: RowV)
    requires
        r.username.len() == USERNAME_SIZE,
        r.email.len() == EMAIL_SIZE,
    ensures
        spec_row_of_bytes(spec_row_bytes(r)) == r,
{
    let b = spec_row_bytes(r);
    assert(b.subrange(0, 4) =~= be32(r.key));
    crate::btree::utils::lemma_be32_round_trip(r.key);
    assert(b.subrange(4, 36) =~= r.username);
    assert(b.subrange(36, 291) =~= r.email);
    assert(spec_row_of_bytes(b) =~= r);
}

} // verus!
