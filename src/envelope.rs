//! The header summary of one message, as the backends produce it and the
//! threading engine reads it, and the message flags.
use vstd::prelude::*;

verus! {

/// The state flags of a message.
#[derive(Clone, Copy, Debug, PartialEq, Eq, Structural, Default)]
pub struct Flag {
    pub passed: bool,
    pub replied: bool,
    pub seen: bool,
    pub trashed: bool,
    pub draft: bool,
    pub flagged: bool,
}

/// No flag set.
pub open spec fn no_flags() -> Flag {
    Flag {
        passed: false,
        replied: false,
        seen: false,
        trashed: false,
        draft: false,
        flagged: false,
    }
}

impl Flag {
    pub fn empty() -> (r: Flag)
        ensures
            r == no_flags(),
    {
        Flag {
            passed: false,
            replied: false,
            seen: false,
            trashed: false,
            draft: false,
            flagged: false,
        }
    }
}

/// A byte range inside an address's `raw` text.
#[derive(Clone, Copy, Debug, PartialEq, Eq, Structural)]
pub struct StrBuilder {
    pub offset: usize,
    pub length: usize,
}

/// One mailbox address: its rendered text and where its display name and
/// address specification lie in it.
#[derive(Clone, Debug, PartialEq)]
pub struct Address {
    pub raw: Vec<u8>,
    pub display_name: StrBuilder,
    pub address_spec: StrBuilder,
}

/// Header summary of one message.
#[derive(Clone, Debug)]
pub struct Envelope {
    pub hash: u64,
    pub message_id: Vec<u8>,
    pub in_reply_to: Vec<u8>,
    pub references: Vec<Vec<u8>>,
    pub subject: Vec<u8>,
    pub date_raw: Vec<u8>,
    pub date: u64,
    pub from: Vec<Address>,
    pub to: Vec<Address>,
    pub cc: Vec<Address>,
    pub bcc: Vec<Address>,
    pub flags: Flag,
    pub labels: Vec<u64>,
    pub has_attachments: bool,
    pub thread: usize,
}

impl Envelope {
    pub fn new(hash: u64) -> (r: Envelope)
        ensures
            r.hash == hash,
            r.message_id@.len() == 0,
            r.in_reply_to@.len() == 0,
            r.references@.len() == 0,
            r.subject@.len() == 0,
            r.date == 0,
            r.flags == no_flags(),
            r.labels@.len() == 0,
            !r.has_attachments,
    {
        Envelope {
            hash,
            message_id: Vec::new(),
            in_reply_to: Vec::new(),
            references: Vec::new(),
            subject: Vec::new(),
            date_raw: Vec::new(),
            date: 0,
            from: Vec::new(),
            to: Vec::new(),
            cc: Vec::new(),
            bcc: Vec::new(),
            flags: Flag::empty(),
            labels: Vec::new(),
            has_attachments: false,
            thread: 0,
        }
    }

    pub fn is_seen(&self) -> (r: bool)
        ensures
            r == self.flags.seen,
    {
        self.flags.seen
    }
}

} // verus!
