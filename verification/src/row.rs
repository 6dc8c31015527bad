//! The row: one fixed-shape record of the table.

use vstd::prelude::*;

use crate::{MAX_EMAIL_LENGTH, MAX_UNAME_LENGTH};

verus! {

/// Mathematical value of a row: the primary key and the used bytes of the
/// two string columns.
pub ghost struct RowV {
    pub id: u32,
    pub username: Seq<u8>,
    pub email: Seq<u8>,
}

impl RowV {
    /// The column lengths fit their fixed on-disk buffers.
    pub open spec fn wf(self) -> bool {
        self.username.len() <= MAX_UNAME_LENGTH && self.email.len() <= MAX_EMAIL_LENGTH
    }
}

/// `s` cut down to at most `n` bytes.
pub open spec fn clip(s: Seq<u8>, n: int) -> Seq<u8> {
    if s.len() <= n {
        s
    } else {
        s.take(n)
    }
}

/// One record: an id, a username of at most 32 bytes and an email of at
/// most 255 bytes.  The columns hold only their used bytes; the zero
/// padding of the fixed on-disk buffers exists solely in the codec.
pub struct Row {
    pub id: u32,
    pub username: Vec<u8>,
    pub email: Vec<u8>,
}

impl View for Row {
    type V = RowV;

    open spec fn view(&self) -> RowV {
        RowV { id: self.id, username: self.username@, email: self.email@ }
    }
}

impl Row {
    /// The column lengths fit their fixed on-disk buffers.
    pub open spec fn wf(self) -> bool {
        self@.wf()
    }

    /// Build a row from parsed input, keeping at most the first 32 bytes of
    /// the username and the first 255 bytes of the email.
    pub fn new(id: u32, username: &[u8], email: &[u8]) -> (r: Row)
        ensures
            r.wf(),
            r@.id == id,
            r@.username == clip(username@, MAX_UNAME_LENGTH as int),
            r@.email == clip(email@, MAX_EMAIL_LENGTH as int),
    {
        let username_len: usize = if username.len() < MAX_UNAME_LENGTH {
            username.len()
        } else {
            MAX_UNAME_LENGTH
        };
        let email_len: usize = if email.len() < MAX_EMAIL_LENGTH {
            email.len()
        } else {
            MAX_EMAIL_LENGTH
        };
        let mut uname: Vec<u8> = Vec::new();
        let mut i: usize = 0;
        while i < username_len
            invariant
                i <= username_len,
                username_len <= username@.len(),
                uname@ == username@.take(i as int),
            decreases username_len - i,
        {
            uname.push(username[i]);
            i = i + 1;
            proof {
                assert(uname@ == username@.take(i as int));
            }
        }
        let mut mail: Vec<u8> = Vec::new();
        let mut j: usize = 0;
        while j < email_len
            invariant
                j <= email_len,
                email_len <= email@.len(),
                mail@ == email@.take(j as int),
            decreases email_len - j,
        {
            mail.push(email[j]);
            j = j + 1;
            proof {
                assert(mail@ == email@.take(j as int));
            }
        }
        proof {
            assert(uname@ == clip(username@, MAX_UNAME_LENGTH as int));
            assert(mail@ == clip(email@, MAX_EMAIL_LENGTH as int));
        }
        Row { id, username: uname, email: mail }
    }

    /// The row every column of which is empty.
    pub fn blank() -> (r: Row)
        ensures
            r.wf(),
            r@.id == 0u32,
            r@.username.len() == 0,
            r@.email.len() == 0,
    {
        Row { id: 0, username: Vec::new(), email: Vec::new() }
    }

    /// An independent copy of the row.
    pub fn duplicate(&self) -> (r: Row)
        ensures
            r@ == self@,
    {
        let mut uname: Vec<u8> = Vec::new();
        let mut i: usize = 0;
        while i < self.username.len()
            invariant
                i <= self.username@.len(),
                uname@ == self.username@.take(i as int),
            decreases self.username@.len() - i,
        {
            uname.push(self.username[i]);
            i = i + 1;
            proof {
                assert(uname@ == self.username@.take(i as int));
            }
        }
        let mut mail: Vec<u8> = Vec::new();
        let mut j: usize = 0;
        while j < self.email.len()
            invariant
                j <= self.email@.len(),
                mail@ == self.email@.take(j as int),
            decreases self.email@.len() - j,
        {
            mail.push(self.email[j]);
            j = j + 1;
            proof {
                assert(mail@ == self.email@.take(j as int));
            }
        }
        proof {
            assert(uname@ == self.username@);
            assert(mail@ == self.email@);
        }
        Row { id: self.id, username: uname, email: mail }
    }
}

impl Default for Row {
    /// The all-empty row.
    fn default() -> (r: Row)
        ensures
            r.wf(),
            r@.id == 0u32,
            r@.username.len() == 0,
            r@.email.len() == 0,
    {
        Row::blank()
    }
}

} // verus!
