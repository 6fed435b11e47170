//! Backend core of a mail client: an IMAP wire-protocol parser, the IMAP
//! session bookkeeping (UID index, batched fetch planning, mailbox
//! permissions, command and response framing), a message threading engine,
//! account settings, and the state of the interface's form widgets.
pub mod bytes;
pub mod error;
pub mod response;
pub mod envelope;
pub mod thread;
pub mod parser;
pub mod imap;
pub mod conf;
pub mod widgets;
pub mod session;
pub mod fnvmap;
