//! IMAP session bookkeeping: mailbox records read from LIST lines, the
//! shared UID index, the plan of batched UID FETCH commands, and the
//! commands that mailbox operations send once their permission checks pass.
use crate::bytes::{bytes_eq, copy_bytes, has_prefix_at, skip_spaces, starts_with_at};
use crate::envelope::{Envelope, Flag};
use crate::error::MeliError;
use crate::parser::{string_token, UidFetchResponse};
use std::collections::hash_map::DefaultHasher;
use fnv::FnvHashMap;
use crate::fnvmap::{fnv_clear, fnv_contains, fnv_get, fnv_insert, fnv_new};
use std::hash::Hasher;
use vstd::prelude::*;
use vstd::std_specs::hash::DefaultHasherAdditionalSpecFns;
use vstd::string::{StringExecFns, StringSliceAdditionalSpecFns};

verus! {

broadcast use vstd::std_specs::hash::group_hash_axioms;

pub type UID = usize;

/// What a mailbox is used for.
#[derive(Clone, Copy, Debug, PartialEq, Eq, Structural)]
pub enum SpecialUsage {
    Normal,
    Inbox,
    Sent,
    Drafts,
    Trash,
}

/// What the user may do with a mailbox.
#[derive(Clone, Copy, Debug, PartialEq, Eq, Structural)]
pub struct MailboxPermissions {
    pub create_messages: bool,
    pub remove_messages: bool,
    pub set_flags: bool,
    pub create_child: bool,
    pub rename_messages: bool,
    pub delete_messages: bool,
    pub delete_mailbox: bool,
    pub change_permissions: bool,
}

impl MailboxPermissions {
    /// Everything allowed.
    pub fn all() -> (r: MailboxPermissions)
        ensures
            r.delete_mailbox && r.create_messages && r.create_child && r.change_permissions,
    {
        MailboxPermissions {
            create_messages: true,
            remove_messages: true,
            set_flags: true,
            create_child: true,
            rename_messages: true,
            delete_messages: true,
            delete_mailbox: true,
            change_permissions: true,
        }
    }
}

/// A mailbox of an IMAP account.
#[derive(Clone, Debug)]
pub struct ImapMailbox {
    pub hash: u64,
    pub name: Vec<u8>,
    pub path: Vec<u8>,
    pub imap_path: Vec<u8>,
    pub separator: u8,
    pub parent: Option<u64>,
    pub children: Vec<u64>,
    pub is_subscribed: bool,
    pub no_select: bool,
    pub usage: SpecialUsage,
    pub permissions: MailboxPermissions,
    pub exists: usize,
    pub unseen: usize,
}

/// The cached data of one message.
#[derive(Debug, Default)]
pub struct EnvelopeCache {
    pub bytes: Option<Vec<u8>>,
    pub headers: Option<Vec<u8>>,
    pub body: Option<Vec<u8>>,
    pub flags: Option<Flag>,
}

/// Where and as whom to connect.
#[derive(Debug, Clone)]
pub struct ImapServerConf {
    pub server_hostname: String,
    pub server_username: String,
    pub server_password: String,
    pub server_port: u16,
    pub use_starttls: bool,
    pub danger_accept_invalid_certs: bool,
}

/// The hash of a sequence of byte strings, fed one by one to std's
/// default hasher.
pub open spec fn hash_of(parts: Seq<Seq<u8>>) -> u64 {
    DefaultHasher::spec_finish(parts)
}

/// Identifies a mailbox by its server path.
pub fn path_hash(path: &[u8]) -> (r: u64)
    ensures
        r == hash_of(seq![path@]),
{
    let mut h = DefaultHasher::new();
    h.write(path);
    h.finish()
}

/// The `m` low bytes of `n`, least significant first.
pub open spec fn le_seq(n: nat, m: nat) -> Seq<u8>
    decreases m,
{
    if m == 0 {
        Seq::empty()
    } else {
        seq![(n % 256) as u8] + le_seq(n / 256, (m - 1) as nat)
    }
}

/// The hash of the message `uid` of the mailbox at `path`: its UID as eight
/// little-endian bytes, then the path.
pub open spec fn envelope_hash_spec(uid: nat, path: Seq<u8>) -> u64 {
    hash_of(seq![le_seq(uid, 8), path])
}

/// The eight little-endian bytes of `n`.
fn le_bytes(n: u64) -> (r: Vec<u8>)
    ensures
        r@ == le_seq(n as nat, 8),
{
    let mut r: Vec<u8> = Vec::new();
    let mut k: u64 = n;
    let mut i: usize = 0;
    assert(r@ + le_seq(k as nat, 8) =~= le_seq(n as nat, 8));
    while i < 8
        invariant
            i <= 8,
            r@ + le_seq(k as nat, (8 - i) as nat) == le_seq(n as nat, 8),
        decreases 8 - i,
    {
        let ghost r0 = r@;
        r.push((k % 256) as u8);
        assert(r0 + le_seq(k as nat, (8 - i) as nat) =~= r@ + le_seq(
            (k / 256) as nat,
            (8 - i - 1) as nat,
        ));
        k = k / 256;
        i += 1;
    }
    assert(r@ + le_seq(k as nat, 0) =~= r@);
    r
}

/// Identifies a message by its UID and the path of its mailbox.
pub fn envelope_hash(uid: UID, path: &[u8]) -> (r: u64)
    ensures
        r == envelope_hash_spec(uid as nat, path@),
{
    let u = le_bytes(uid as u64);
    let mut h = DefaultHasher::new();
    h.write(u.as_slice());
    h.write(path);
    let r = h.finish();
    assert(h@ =~= seq![u@, path@]);
    r
}

/// Identifies a keyword by its text.
pub fn tag_hash(tag: &[u8]) -> (r: u64)
    ensures
        r == hash_of(seq![tag@]),
{
    path_hash(tag)
}

/// Enters the keyword `tag` in the tag table, unless its hash is there
/// already; gives back its hash.
pub fn register_keyword(table: &mut FnvHashMap<u64, Vec<u8>>, tag: &[u8]) -> (h: u64)
    ensures
        h == hash_of(seq![tag@]),
        final(table)@.contains_key(h),
        old(table)@.contains_key(h) ==> final(table)@ == old(table)@,
        !old(table)@.contains_key(h) ==> final(table)@.dom() == old(table)@.dom().insert(h)
            && final(table)@[h]@ == tag@,
{
    let h = tag_hash(tag);
    if !fnv_contains(table, &h) {
        fnv_insert(table, h, copy_bytes(tag));
    }
    h
}

/// The shared index of a session: UIDVALIDITY per mailbox, envelope hash
/// to (UID, mailbox), UID to envelope hash, and cached message data.
pub struct UIDStore {
    pub uidvalidity: FnvHashMap<u64, UID>,
    pub hash_index: FnvHashMap<u64, (UID, u64)>,
    pub uid_index: FnvHashMap<UID, u64>,
    pub byte_cache: FnvHashMap<UID, EnvelopeCache>,
}

impl UIDStore {
    pub fn new() -> (r: UIDStore)
        ensures
            r.uidvalidity@ == Map::<u64, UID>::empty(),
            r.hash_index@ == Map::<u64, (UID, u64)>::empty(),
            r.uid_index@ == Map::<UID, u64>::empty(),
    {
        UIDStore {
            uidvalidity: fnv_new(),
            hash_index: fnv_new(),
            uid_index: fnv_new(),
            byte_cache: fnv_new(),
        }
    }

    /// Records that the message `uid` of mailbox `mailbox` has hash `hash`,
    /// in both directions.
    pub fn insert(&mut self, hash: u64, uid: UID, mailbox: u64)
        ensures
            final(self).hash_index@ == old(self).hash_index@.insert(hash, (uid, mailbox)),
            final(self).uid_index@ == old(self).uid_index@.insert(uid, hash),
            final(self).uidvalidity@ == old(self).uidvalidity@,
    {
        fnv_insert(&mut self.hash_index, hash, (uid, mailbox));
        fnv_insert(&mut self.uid_index, uid, hash);
    }

    /// The hashes of the cached messages among `uids`, in order; UIDs not
    /// yet fetched are left out.
    pub fn resolve(&self, uids: &Vec<UID>) -> (r: Vec<u64>)
        ensures
            r@ == resolved(self.uid_index@, uids@),
    {
        let mut r: Vec<u64> = Vec::new();
        let mut i: usize = 0;
        while i < uids.len()
            invariant
                i <= uids@.len(),
                r@ == resolved(self.uid_index@, uids@.subrange(0, i as int)),
            decreases uids@.len() - i,
        {
            assert(uids@.subrange(0, i + 1).drop_last() =~= uids@.subrange(0, i as int));
            match fnv_get(&self.uid_index, &uids[i]) {
                Some(h) => {
                    r.push(*h);
                },
                None => {},
            }
            i += 1;
        }
        assert(uids@.subrange(0, uids@.len() as int) =~= uids@);
        r
    }

    /// Forgets every UID mapping and cached message. UIDs are only unique
    /// per mailbox generation, so when a mailbox's UIDVALIDITY changes the
    /// index is dropped and the mailbox fetched again in full, rather than
    /// kept with stale entries.
    pub fn drop_index(&mut self)
        ensures
            final(self).hash_index@ == Map::<u64, (UID, u64)>::empty(),
            final(self).uid_index@ == Map::<UID, u64>::empty(),
            final(self).uidvalidity@ == old(self).uidvalidity@,
    {
        fnv_clear(&mut self.hash_index);
        fnv_clear(&mut self.uid_index);
        fnv_clear(&mut self.byte_cache);
    }

    /// Records the UIDVALIDITY a SELECT reported for `mailbox`; tells
    /// whether it differs from a value recorded before, in which case the
    /// UIDs cached for the mailbox are stale (see `drop_index`).
    pub fn set_uidvalidity(&mut self, mailbox: u64, value: UID) -> (changed: bool)
        ensures
            final(self).uidvalidity@ == old(self).uidvalidity@.insert(mailbox, value),
            final(self).hash_index@ == old(self).hash_index@,
            final(self).uid_index@ == old(self).uid_index@,
            changed == (old(self).uidvalidity@.contains_key(mailbox) && old(self).uidvalidity@[mailbox]
                != value),
    {
        let old_value = fnv_insert(&mut self.uidvalidity, mailbox, value);
        match old_value {
            Some(v) => v != value,
            None => false,
        }
    }
}

/// The hashes that `index` gives the UIDs of `uids`, in order, leaving out
/// UIDs it does not know.
pub open spec fn resolved(index: Map<UID, u64>, uids: Seq<UID>) -> Seq<u64>
    decreases uids.len(),
{
    if uids.len() == 0 {
        Seq::empty()
    } else {
        let rest = resolved(index, uids.drop_last());
        if index.contains_key(uids.last()) {
            rest.push(index[uids.last()])
        } else {
            rest
        }
    }
}

/// The UID ranges fetched, newest first, for a mailbox whose highest UID is
/// `hi`: each range ends one below where the previous one started, and
/// reaches `batch` below its end (or 1).
pub open spec fn batches_from(hi: nat, batch: nat) -> Seq<(nat, nat)>
    decreases hi,
{
    if hi == 0 {
        Seq::empty()
    } else {
        let lo: nat = if hi > batch + 1 {
            (hi - batch) as nat
        } else {
            1
        };
        seq![(lo, hi)] + batches_from((lo - 1) as nat, batch)
    }
}

/// Every range is non-empty and lies below the previous one.
pub open spec fn descending_cover(r: Seq<(nat, nat)>, hi: nat) -> bool {
    &&& forall|k: int| 0 <= k < r.len() ==> 1 <= (#[trigger] r[k]).0 <= r[k].1
    &&& r.len() > 0 ==> r[0].1 == hi
    &&& forall|k: int| 0 < k < r.len() ==> (#[trigger] r[k]).1 + 1 == r[k - 1].0
    &&& r.len() > 0 ==> r.last().0 == 1
}

/// The ranges cover `1..=hi` exactly once, from the top down.
pub proof fn lemma_batches_cover(hi: nat, batch: nat)
    ensures
        descending_cover(batches_from(hi, batch), hi),
        hi == 0 <==> batches_from(hi, batch).len() == 0,
    decreases hi,
{
    if hi > 0 {
        let lo: nat = if hi > batch + 1 {
            (hi - batch) as nat
        } else {
            1
        };
        lemma_batches_cover((lo - 1) as nat, batch);
        let rest = batches_from((lo - 1) as nat, batch);
        let r = batches_from(hi, batch);
        assert(r == seq![(lo, hi)] + rest);
        assert forall|k: int| 0 < k < r.len() implies (#[trigger] r[k]).1 + 1 == r[k - 1].0 by {
            if k > 1 {
                assert(r[k] == rest[k - 1] && r[k - 1] == rest[k - 2]);
            } else {
                assert(r[k] == rest[0]);
            }
        }
        assert forall|k: int| 0 <= k < r.len() implies 1 <= (#[trigger] r[k]).0 <= r[k].1 by {
            if k > 0 {
                assert(r[k] == rest[k - 1]);
            }
        }
        if rest.len() > 0 {
            assert(r.last() == rest.last());
        }
    }
}

/// The UID ranges to fetch, newest first, for a mailbox that announced
/// `uidnext`, at most `batch + 1` UIDs each.
pub fn fetch_batches(uidnext: usize, batch: usize) -> (r: Vec<(usize, usize)>)
    ensures
        r@.map_values(|p: (usize, usize)| (p.0 as nat, p.1 as nat)) == batches_from(
            if uidnext > 0 {
                (uidnext - 1) as nat
            } else {
                0
            },
            batch as nat,
        ),
{
    let mut r: Vec<(usize, usize)> = Vec::new();
    let mut hi: usize = if uidnext > 0 {
        uidnext - 1
    } else {
        0
    };
    let ghost total = batches_from(hi as nat, batch as nat);
    assert(r@.map_values(|p: (usize, usize)| (p.0 as nat, p.1 as nat)) + batches_from(
        hi as nat,
        batch as nat,
    ) =~= total);
    while hi > 0
        invariant
            r@.map_values(|p: (usize, usize)| (p.0 as nat, p.1 as nat)) + batches_from(
                hi as nat,
                batch as nat,
            ) == total,
        decreases hi,
    {
        let lo = if batch < usize::MAX && hi > batch + 1 {
            hi - batch
        } else {
            1
        };
        let ghost r0 = r@;
        r.push((lo, hi));
        proof {
            assert(r@.map_values(|p: (usize, usize)| (p.0 as nat, p.1 as nat)) =~= r0.map_values(
                |p: (usize, usize)| (p.0 as nat, p.1 as nat),
            ).push((lo as nat, hi as nat)));
            let rest = batches_from((lo - 1) as nat, batch as nat);
            assert(batches_from(hi as nat, batch as nat) == seq![(lo as nat, hi as nat)] + rest);
            assert(r0.map_values(|p: (usize, usize)| (p.0 as nat, p.1 as nat)) + (seq![
                (lo as nat, hi as nat),
            ] + rest) =~= r@.map_values(|p: (usize, usize)| (p.0 as nat, p.1 as nat)) + rest);
        }
        hi = lo - 1;
    }
    assert(r@.map_values(|p: (usize, usize)| (p.0 as nat, p.1 as nat)) + Seq::<(nat, nat)>::empty()
        =~= r@.map_values(|p: (usize, usize)| (p.0 as nat, p.1 as nat)));
    r
}

/// The decimal digits of `n`.
pub open spec fn dec_digits(n: nat) -> Seq<u8>
    decreases n,
{
    if n < 10 {
        seq![(48 + n) as u8]
    } else {
        dec_digits(n / 10).push((48 + n % 10) as u8)
    }
}

/// Appends the decimal digits of `n`.
fn push_decimal(out: &mut Vec<u8>, n: usize)
    ensures
        final(out)@ == old(out)@ + dec_digits(n as nat),
    decreases n,
{
    if n < 10 {
        out.push((48 + n) as u8);
        assert(dec_digits(n as nat) =~= seq![(48 + n) as u8]);
    } else {
        push_decimal(out, n / 10);
        out.push((48 + n % 10) as u8);
    }
}

fn push_str(out: &mut Vec<u8>, s: &str)
    ensures
        final(out)@ == old(out)@ + s.spec_bytes(),
{
    let b = s.as_bytes();
    let ghost o0 = out@;
    let mut k: usize = 0;
    while k < b.len()
        invariant
            k <= b@.len(),
            b@ == s.spec_bytes(),
            out@ == o0 + b@.subrange(0, k as int),
        decreases b@.len() - k,
    {
        out.push(b[k]);
        k += 1;
        assert(out@ =~= o0 + b@.subrange(0, k as int));
    }
    assert(b@.subrange(0, b@.len() as int) =~= b@);
}

/// The command that fetches the UIDs `lo..=hi` with what a message list
/// needs.
pub open spec fn fetch_command_spec(lo: nat, hi: nat) -> Seq<u8> {
    "UID FETCH ".spec_bytes() + dec_digits(lo) + ":".spec_bytes() + dec_digits(hi)
        + " (UID FLAGS ENVELOPE BODYSTRUCTURE)".spec_bytes()
}

pub fn fetch_command(lo: usize, hi: usize) -> (r: Vec<u8>)
    ensures
        r@ == fetch_command_spec(lo as nat, hi as nat),
{
    let mut r: Vec<u8> = Vec::new();
    push_str(&mut r, "UID FETCH ");
    push_decimal(&mut r, lo);
    push_str(&mut r, ":");
    push_decimal(&mut r, hi);
    push_str(&mut r, " (UID FLAGS ENVELOPE BODYSTRUCTURE)");
    assert(r@ =~= fetch_command_spec(lo as nat, hi as nat));
    r
}

/// `UID FETCH uid items`.
pub open spec fn uid_fetch_spec(uid: nat, items: Seq<u8>) -> Seq<u8> {
    "UID FETCH ".spec_bytes() + dec_digits(uid) + seq![32u8] + items
}

/// The command that fetches `items` (`FLAGS`, `(FLAGS RFC822)`, ...) of the
/// message `uid`.
pub fn uid_fetch_command(uid: UID, items: &str) -> (r: Vec<u8>)
    ensures
        r@ == uid_fetch_spec(uid as nat, items.spec_bytes()),
{
    let mut r: Vec<u8> = Vec::new();
    push_str(&mut r, "UID FETCH ");
    push_decimal(&mut r, uid);
    r.push(32);
    push_str(&mut r, items);
    assert(r@ =~= uid_fetch_spec(uid as nat, items.spec_bytes()));
    r
}

/// `cmd "path"`.
pub open spec fn mailbox_command_spec(cmd: Seq<u8>, path: Seq<u8>) -> Seq<u8> {
    cmd + seq![32u8, 34u8] + path + seq![34u8]
}

pub fn mailbox_command(cmd: &str, path: &[u8]) -> (r: Vec<u8>)
    ensures
        r@ == mailbox_command_spec(cmd.spec_bytes(), path@),
{
    let mut r: Vec<u8> = Vec::new();
    push_str(&mut r, cmd);
    r.push(32);
    r.push(34);
    let ghost r0 = r@;
    let mut k: usize = 0;
    while k < path.len()
        invariant
            k <= path@.len(),
            r@ == r0 + path@.subrange(0, k as int),
        decreases path@.len() - k,
    {
        r.push(path[k]);
        k += 1;
        assert(r@ =~= r0 + path@.subrange(0, k as int));
    }
    r.push(34);
    assert(path@.subrange(0, path@.len() as int) =~= path@);
    assert(r@ =~= mailbox_command_spec(cmd.spec_bytes(), path@));
    r
}

/// The commands that delete mailbox `m`, in order: leave its subscription,
/// make sure it is not selected (UNSELECT where the server has it, else
/// SELECT then EXAMINE), then DELETE. Nothing is sent without the
/// permission to delete it.
/// The commands that delete `m`, in order.
pub open spec fn delete_plan(m: ImapMailbox, has_unselect: bool) -> Seq<Seq<u8>> {
    let p = m.imap_path@;
    (if m.is_subscribed {
        seq![mailbox_command_spec("UNSUBSCRIBE".spec_bytes(), p)]
    } else {
        Seq::empty()
    }) + (if m.no_select {
        Seq::empty()
    } else if has_unselect {
        seq![mailbox_command_spec("UNSELECT".spec_bytes(), p)]
    } else {
        seq![
            mailbox_command_spec("SELECT".spec_bytes(), p),
            mailbox_command_spec("EXAMINE".spec_bytes(), p),
        ]
    }) + seq![mailbox_command_spec("DELETE".spec_bytes(), p)]
}

pub fn delete_folder_commands(m: &ImapMailbox, has_unselect: bool) -> (r: Result<Vec<Vec<u8>>, MeliError>)
    ensures
        r is Err <==> !m.permissions.delete_mailbox,
        r matches Ok(cmds) ==> cmds@.map_values(|c: Vec<u8>| c@) == delete_plan(*m, has_unselect),
        r matches Ok(cmds) ==> cmds@.len() > 0 && cmds@.last()@ == mailbox_command_spec(
            "DELETE".spec_bytes(),
            m.imap_path@,
        ) && (m.is_subscribed ==> cmds@[0]@ == mailbox_command_spec(
            "UNSUBSCRIBE".spec_bytes(),
            m.imap_path@,
        )),
{
    if !m.permissions.delete_mailbox {
        return Err(MeliError::new(String::from_str("You do not have permission to delete `").concat(
            crate::bytes::text_from_bytes(m.name.as_slice()).as_str(),
        ).concat("`.")));
    }
    let mut cmds: Vec<Vec<u8>> = Vec::new();
    if m.is_subscribed {
        cmds.push(mailbox_command("UNSUBSCRIBE", m.imap_path.as_slice()));
    }
    if !m.no_select {
        if has_unselect {
            cmds.push(mailbox_command("UNSELECT", m.imap_path.as_slice()));
        } else {
            cmds.push(mailbox_command("SELECT", m.imap_path.as_slice()));
            cmds.push(mailbox_command("EXAMINE", m.imap_path.as_slice()));
        }
    }
    let ghost c0 = cmds@;
    cmds.push(mailbox_command("DELETE", m.imap_path.as_slice()));
    assert(m.is_subscribed ==> cmds@[0] == c0[0] || c0.len() == 0);
    assert(cmds@.map_values(|c: Vec<u8>| c@) =~= delete_plan(*m, has_unselect));
    Ok(cmds)
}

/// Sets the permissions a SELECT gave: all message operations follow
/// whether the mailbox is writable.
pub fn apply_select_permissions(p: &mut MailboxPermissions, read_only: bool)
    ensures
        final(p).create_messages == !read_only,
        final(p).remove_messages == !read_only,
        final(p).set_flags == !read_only,
        final(p).rename_messages == !read_only,
        final(p).delete_messages == !read_only,
        final(p).delete_mailbox == old(p).delete_mailbox,
        final(p).create_child == old(p).create_child,
        final(p).change_permissions == old(p).change_permissions,
{
    p.create_messages = !read_only;
    p.remove_messages = !read_only;
    p.set_flags = !read_only;
    p.rename_messages = !read_only;
    p.delete_messages = !read_only;
}

} // verus!

verus! {

/// The store maps `hash` to (`uid`, `mailbox`) and `uid` back to `hash`.
pub open spec fn consistent(s: UIDStore, hash: u64, uid: UID, mailbox: u64) -> bool {
    &&& s.hash_index@.contains_key(hash)
    &&& s.hash_index@[hash] == (uid, mailbox)
    &&& s.uid_index@.contains_key(uid)
    &&& s.uid_index@[uid] == hash
}

/// No message after the `k`-th of a batch has its UID or its hash.
pub open spec fn last_of_its_kind(hashes: Seq<u64>, uids: Seq<UID>, k: int) -> bool {
    forall|j: int| k < j < uids.len() ==> #[trigger] uids[j] != uids[k] && hashes[j] != hashes[k]
}

/// The hashes of `envs`.
pub open spec fn hashes(envs: Seq<Envelope>) -> Seq<u64> {
    envs.map_values(|e: Envelope| e.hash)
}

/// The responses of a batch that carry an ENVELOPE, in order.
pub open spec fn kept<'a>(rs: Seq<UidFetchResponse<'a>>) -> Seq<UidFetchResponse<'a>>
    decreases rs.len(),
{
    if rs.len() == 0 {
        Seq::empty()
    } else if rs.last().envelope is Some {
        kept(rs.drop_last()).push(rs.last())
    } else {
        kept(rs.drop_last())
    }
}

/// How many of `rs` carry flags without `\Seen`.
pub open spec fn unseen_count<'a>(rs: Seq<UidFetchResponse<'a>>) -> nat
    decreases rs.len(),
{
    if rs.len() == 0 {
        0
    } else {
        unseen_count(rs.drop_last()) + if rs.last().flags matches Some((f, _)) && !f.seen {
            1nat
        } else {
            0nat
        }
    }
}

/// `m` after recording each hash of `hs` with its UID of `us`, in order.
pub open spec fn hash_index_after(m: Map<u64, (UID, u64)>, hs: Seq<u64>, us: Seq<UID>, mailbox: u64) -> Map<
    u64,
    (UID, u64),
>
    decreases hs.len(),
{
    if hs.len() == 0 || us.len() != hs.len() {
        m
    } else {
        hash_index_after(m, hs.drop_last(), us.drop_last(), mailbox).insert(
            hs.last(),
            (us.last(), mailbox),
        )
    }
}

/// `m` after recording each UID of `us` with its hash of `hs`, in order.
pub open spec fn uid_index_after(m: Map<UID, u64>, hs: Seq<u64>, us: Seq<UID>) -> Map<UID, u64>
    decreases hs.len(),
{
    if hs.len() == 0 || us.len() != hs.len() {
        m
    } else {
        uid_index_after(m, hs.drop_last(), us.drop_last()).insert(us.last(), hs.last())
    }
}

/// The header fields two envelopes share.
pub open spec fn same_headers(a: Envelope, b: Envelope) -> bool {
    &&& a.message_id == b.message_id
    &&& a.in_reply_to == b.in_reply_to
    &&& a.references == b.references
    &&& a.subject == b.subject
    &&& a.date_raw == b.date_raw
    &&& a.date == b.date
    &&& a.from == b.from
    &&& a.to == b.to
    &&& a.cc == b.cc
    &&& a.bcc == b.bcc
    &&& a.has_attachments == b.has_attachments
}

proof fn lemma_index_after_keeps(
    m1: Map<u64, (UID, u64)>,
    m2: Map<UID, u64>,
    hs: Seq<u64>,
    us: Seq<UID>,
    mailbox: u64,
    h: u64,
    u: UID,
    mb: u64,
)
    requires
        m1.contains_key(h) && m1[h] == (u, mb),
        m2.contains_key(u) && m2[u] == h,
        hs.len() == us.len(),
        forall|k: int| #![trigger hs[k]] 0 <= k < hs.len() ==> hs[k] != h && us[k] != u,
    ensures
        hash_index_after(m1, hs, us, mailbox).contains_key(h),
        hash_index_after(m1, hs, us, mailbox)[h] == (u, mb),
        uid_index_after(m2, hs, us).contains_key(u),
        uid_index_after(m2, hs, us)[u] == h,
    decreases hs.len(),
{
    if hs.len() > 0 {
        assert forall|k: int| #![trigger hs.drop_last()[k]] 0 <= k < hs.drop_last().len() implies hs.drop_last()[k] != h
            && us.drop_last()[k] != u by {
            assert(hs.drop_last()[k] == hs[k] && us.drop_last()[k] == us[k]);
        }
        lemma_index_after_keeps(m1, m2, hs.drop_last(), us.drop_last(), mailbox, h, u, mb);
        assert(hs.last() == hs[hs.len() - 1] && us.last() == us[us.len() - 1]);
    }
}

/// A message recorded consistently in the store stays so after a later
/// batch is merged, unless that batch holds a message with its UID or its
/// hash.
pub proof fn lemma_batches_keep_consistency(
    s0: UIDStore,
    s1: UIDStore,
    batch_hashes: Seq<u64>,
    uids: Seq<UID>,
    mailbox: u64,
    h: u64,
    u: UID,
    mb: u64,
)
    requires
        consistent(s0, h, u, mb),
        batch_hashes.len() == uids.len(),
        s1.hash_index@ == hash_index_after(s0.hash_index@, batch_hashes, uids, mailbox),
        s1.uid_index@ == uid_index_after(s0.uid_index@, batch_hashes, uids),
        forall|k: int|
            #![trigger batch_hashes[k]]
            0 <= k < batch_hashes.len() ==> batch_hashes[k] != h && uids[k] != u,
    ensures
        consistent(s1, h, u, mb),
{
    lemma_index_after_keeps(s0.hash_index@, s0.uid_index@, batch_hashes, uids, mailbox, h, u, mb);
}

/// `e`, with UID `u`, is what the response `resp` of the mailbox at `path`
/// became.
pub open spec fn merged<'a>(e: Envelope, u: UID, resp: UidFetchResponse<'a>, path: Seq<u8>) -> bool {
    &&& u == resp.uid
    &&& (resp.envelope matches Some(x) && same_headers(e, x))
    &&& e.hash == envelope_hash_spec(resp.uid as nat, path)
    &&& (resp.flags matches Some((f, _)) ==> e.flags == f)
}

/// Turns the responses of one UID FETCH batch of mailbox `mailbox_hash`
/// (server path `path`) into envelopes: each keeps its headers and gets the
/// hash of its UID and path, its flags and the hashes of its keywords (new
/// keywords enter `tags`), and is recorded in `store` in both directions.
/// Responses without an ENVELOPE are skipped. Gives back the envelopes,
/// their UIDs and how many are unseen.
pub fn merge_fetch_batch(
    store: &mut UIDStore,
    tags: &mut FnvHashMap<u64, Vec<u8>>,
    mailbox_hash: u64,
    path: &[u8],
    responses: Vec<UidFetchResponse<'_>>,
) -> (r: (Vec<Envelope>, Vec<UID>, usize))
    ensures
        r.0@.len() == r.1@.len(),
        r.0@.len() == kept(responses@).len(),
        forall|k: int|
            0 <= k < r.0@.len() ==> #[trigger] merged(r.0@[k], r.1@[k], kept(responses@)[k], path@),
        r.2 == unseen_count(kept(responses@)),
        final(store).hash_index@ == hash_index_after(
            old(store).hash_index@,
            hashes(r.0@),
            r.1@,
            mailbox_hash,
        ),
        final(store).uid_index@ == uid_index_after(old(store).uid_index@, hashes(r.0@), r.1@),
        final(store).uidvalidity@ == old(store).uidvalidity@,
        old(tags)@.dom().subset_of(final(tags)@.dom()),
        forall|k: int|
            0 <= k < r.0@.len() && last_of_its_kind(hashes(r.0@), r.1@, k) ==> #[trigger] consistent(
                *final(store),
                r.0@[k].hash,
                r.1@[k],
                mailbox_hash,
            ),
{
    let ghost orig = responses@;
    let mut responses = responses;
    let mut envs: Vec<Envelope> = Vec::new();
    let mut uids: Vec<UID> = Vec::new();
    let mut unseen: usize = 0;
    let ghost mut i: int = 0;
    assert(orig.subrange(0, 0) =~= Seq::<UidFetchResponse>::empty());
    assert(orig.subrange(0, orig.len() as int) =~= orig);
    while responses.len() > 0
        invariant
            0 <= i <= orig.len(),
            responses@ == orig.subrange(i, orig.len() as int),
            envs@.len() == uids@.len(),
            envs@.len() == kept(orig.subrange(0, i)).len(),
            unseen <= envs@.len(),
            unseen == unseen_count(kept(orig.subrange(0, i))),
            forall|k: int|
                0 <= k < envs@.len() ==> #[trigger] merged(
                    envs@[k],
                    uids@[k],
                    kept(orig.subrange(0, i))[k],
                    path@,
                ),
            store.hash_index@ == hash_index_after(
                old(store).hash_index@,
                hashes(envs@),
                uids@,
                mailbox_hash,
            ),
            store.uid_index@ == uid_index_after(old(store).uid_index@, hashes(envs@), uids@),
            store.uidvalidity@ == old(store).uidvalidity@,
            old(tags)@.dom().subset_of(tags@.dom()),
            forall|k: int|
                0 <= k < envs@.len() && last_of_its_kind(hashes(envs@), uids@, k) ==> #[trigger] consistent(
                    *store,
                    envs@[k].hash,
                    uids@[k],
                    mailbox_hash,
                ),
        decreases responses@.len(),
    {
        let ghost pre = orig.subrange(0, i);
        let ghost next = orig.subrange(0, i + 1);
        let ghost envs0 = envs@;
        assert(next.drop_last() =~= pre);
        let resp = responses.remove(0);
        assert(resp == orig[i]);
        assert(next.last() == resp);
        proof {
            i = i + 1;
        }
        assert(responses@ =~= orig.subrange(i, orig.len() as int));
        let UidFetchResponse { uid, message_sequence_number: _, flags, body: _, envelope } = resp;
        let mut env = match envelope {
            Some(e) => e,
            None => {
                assert(kept(next) == kept(pre));
                assert(orig.subrange(0, i) == next);
                assert forall|k: int| 0 <= k < envs@.len() implies #[trigger] merged(
                    envs@[k],
                    uids@[k],
                    kept(orig.subrange(0, i))[k],
                    path@,
                ) by {
                    assert(merged(envs0[k], uids@[k], kept(pre)[k], path@));
                }
                continue ;
            },
        };
        let ghost env0 = env;
        env.hash = envelope_hash(uid, path);
        let mut add: usize = 0;
        if let Some((f, keywords)) = flags {
            if !f.seen {
                add = 1;
            }
            env.flags = f;
            let mut k: usize = 0;
            while k < keywords.len()
                invariant
                    k <= keywords@.len(),
                    old(tags)@.dom().subset_of(tags@.dom()),
                    same_headers(env, env0),
                    env.hash == envelope_hash_spec(uid as nat, path@),
                    env.flags == f,
                decreases keywords@.len() - k,
            {
                let h = tag_hash(keywords[k].as_slice());
                if !fnv_contains(tags, &h) {
                    fnv_insert(tags, h, copy_bytes(keywords[k].as_slice()));
                }
                env.labels.push(h);
                k += 1;
            }
        }
        assert(kept(next) == kept(pre).push(resp));
        assert(kept(next).drop_last() =~= kept(pre));
        assert(kept(next).last() == resp);
        assert(unseen_count(kept(next)) == unseen_count(kept(pre)) + add);
        let ghost s0 = *store;
        let ghost e0 = envs@;
        let ghost u0 = uids@;
        assert(forall|k: int|
            0 <= k < e0.len() && last_of_its_kind(hashes(e0), u0, k) ==> #[trigger] consistent(
                s0,
                e0[k].hash,
                u0[k],
                mailbox_hash,
            ));
        store.insert(env.hash, uid, mailbox_hash);
        envs.push(env);
        uids.push(uid);
        let n_envs = envs.len();
        assert(unseen + add <= n_envs);
        unseen = unseen + add;
        proof {
            assert(hashes(envs@) =~= hashes(e0).push(env.hash));
            assert(hashes(envs@).drop_last() =~= hashes(e0));
            assert(uids@.drop_last() =~= u0);
            assert forall|k: int| 0 <= k < envs@.len() implies #[trigger] merged(
                envs@[k],
                uids@[k],
                kept(next)[k],
                path@,
            ) by {
                if k < e0.len() {
                    assert(envs@[k] == e0[k] && uids@[k] == u0[k]);
                    assert(kept(next)[k] == kept(pre)[k]);
                    assert(merged(e0[k], u0[k], kept(pre)[k], path@));
                }
            }
            assert forall|k: int|
                0 <= k < envs@.len() && last_of_its_kind(hashes(envs@), uids@, k) implies #[trigger] consistent(
                *store,
                envs@[k].hash,
                uids@[k],
                mailbox_hash,
            ) by {
                if k < e0.len() {
                    let n = e0.len() as int;
                    assert(hashes(envs@)[k] == e0[k].hash);
                    assert(uids@[n] != uids@[k]);
                    assert(last_of_its_kind(hashes(e0), u0, k)) by {
                        assert forall|j: int| k < j < u0.len() implies #[trigger] u0[j] != u0[k]
                            && hashes(e0)[j] != hashes(e0)[k] by {
                            assert(uids@[j] == u0[j]);
                            assert(hashes(envs@)[j] == hashes(e0)[j]);
                        }
                    }
                    assert(envs@[k] == e0[k] && uids@[k] == u0[k]);
                    assert(consistent(s0, e0[k].hash, u0[k], mailbox_hash));
                }
            }
        }
    }
    assert(i == orig.len());
    assert(orig.subrange(0, i) =~= orig);
    assert(forall|k: int|
        0 <= k < envs@.len() ==> #[trigger] merged(envs@[k], uids@[k], kept(orig)[k], path@));

    (envs, uids, unseen)
}

/// `b` with ASCII letters in lower case.
pub open spec fn lower(b: u8) -> u8 {
    if 65 <= b <= 90 {
        (b + 32) as u8
    } else {
        b
    }
}

pub open spec fn eq_ignore_case(a: Seq<u8>, b: Seq<u8>) -> bool {
    a.len() == b.len() && forall|k: int| 0 <= k < a.len() ==> lower(#[trigger] a[k]) == lower(b[k])
}

fn eq_ignore_ascii_case(a: &[u8], b: &[u8]) -> (r: bool)
    ensures
        r == eq_ignore_case(a@, b@),
{
    if a.len() != b.len() {
        return false;
    }
    let mut k: usize = 0;
    while k < a.len()
        invariant
            k <= a@.len(),
            a@.len() == b@.len(),
            forall|j: int| 0 <= j < k ==> lower(#[trigger] a@[j]) == lower(b@[j]),
        decreases a@.len() - k,
    {
        let x = if 65 <= a[k] && a[k] <= 90 {
            a[k] + 32
        } else {
            a[k]
        };
        let y = if 65 <= b[k] && b[k] <= 90 {
            b[k] + 32
        } else {
            b[k]
        };
        if x != y {
            return false;
        }
        k += 1;
    }
    true
}

/// The run of bytes other than a blank that starts at `i`.
pub open spec fn atom_end(s: Seq<u8>, i: int) -> int
    decreases s.len() - i,
{
    if i < 0 || i >= s.len() || s[i] == 32 {
        i
    } else {
        atom_end(s, i + 1)
    }
}

/// A mailbox name at `i`: a string, or a run of non-blank bytes; any case
/// of `INBOX` reads as `INBOX`.
pub open spec fn mailbox_token_spec(s: Seq<u8>, i: int) -> Option<(Seq<u8>, int)> {
    let raw = match crate::parser::string_at(s, i) {
        Some((v, e)) => Some((v, e)),
        None => if atom_end(s, i) > i {
            Some((s.subrange(i, atom_end(s, i)), atom_end(s, i)))
        } else {
            None
        },
    };
    match raw {
        Some((v, e)) => if eq_ignore_case(v, "INBOX".spec_bytes()) {
            Some(("INBOX".spec_bytes(), e))
        } else {
            Some((v, e))
        },
        None => None,
    }
}

/// Reads a mailbox name at `i`.
pub fn mailbox_token(s: &[u8], i: usize) -> (r: Option<(Vec<u8>, usize)>)
    requires
        i <= s@.len(),
    ensures
        mailbox_token_spec(s@, i as int) == match r {
            Some((v, e)) => Some((v@, e as int)),
            None => None,
        },
        r matches Some((_, e)) ==> i < e <= s@.len(),
{
    let (v, e) = match string_token(s, i) {
        Some(x) => x,
        None => {
            let mut e = i;
            while e < s.len() && s[e] != 32
                invariant
                    i <= e <= s@.len(),
                    atom_end(s@, e as int) == atom_end(s@, i as int),
                decreases s@.len() - e,
            {
                e += 1;
            }
            if e == i {
                return None;
            }
            (copy_bytes(&s[i..e]), e)
        },
    };
    if eq_ignore_ascii_case(v.as_slice(), "INBOX".as_bytes()) {
        let mut inbox: Vec<u8> = Vec::new();
        push_str(&mut inbox, "INBOX");
        assert(inbox@ =~= "INBOX".spec_bytes());
        Some((inbox, e))
    } else {
        Some((v, e))
    }
}

/// The last position of `b` in `s`.
pub open spec fn last_index(s: Seq<u8>, b: u8) -> Option<int> {
    match crate::bytes::rfind_before(s, seq![b], s.len() as int) {
        Some(k) => Some(k),
        None => None,
    }
}

/// `s` with every `from` byte replaced by `/`.
pub open spec fn with_slashes(s: Seq<u8>, from: u8) -> Seq<u8> {
    s.map_values(|c: u8| if c == from { 47u8 } else { c })
}

fn replace_separator(s: &[u8], sep: u8) -> (r: Vec<u8>)
    ensures
        r@ == with_slashes(s@, sep),
{
    let mut r: Vec<u8> = Vec::new();
    let mut k: usize = 0;
    while k < s.len()
        invariant
            k <= s@.len(),
            r@ == with_slashes(s@.subrange(0, k as int), sep),
        decreases s@.len() - k,
    {
        r.push(if s[k] == sep {
            47
        } else {
            s[k]
        });
        k += 1;
        assert(r@ =~= with_slashes(s@.subrange(0, k as int), sep));
    }
    assert(s@.subrange(0, s@.len() as int) =~= s@);
    r
}

proof fn lemma_atom_end(s: Seq<u8>, i: int)
    requires
        0 <= i <= s.len(),
    ensures
        i <= atom_end(s, i) <= s.len(),
    decreases s.len() - i,
{
    if !(i < 0 || i >= s.len() || s[i] == 32) {
        lemma_atom_end(s, i + 1);
    }
}

#[via_fn]
proof fn has_word_decreases(props: Seq<u8>, a: int, w: Seq<u8>) {
    if 0 <= a < props.len() {
        lemma_atom_end(props, a);
    }
}

/// One of the blank-separated words of `props` from `a` on is `w`, in any
/// case.
pub open spec fn has_word_spec(props: Seq<u8>, a: int, w: Seq<u8>) -> bool
    decreases props.len() - a,
    via has_word_decreases
{
    if a < 0 || a >= props.len() {
        false
    } else {
        let b = atom_end(props, a);
        eq_ignore_case(props.subrange(a, b), w) || (b < props.len() && has_word_spec(props, b + 1, w))
    }
}

fn has_word(props: &[u8], w: &str) -> (r: bool)
    ensures
        r == has_word_spec(props@, 0, w.spec_bytes()),
{
    let mut a: usize = 0;
    loop
        invariant
            a <= props@.len(),
            has_word_spec(props@, a as int, w.spec_bytes()) == has_word_spec(
                props@,
                0,
                w.spec_bytes(),
            ),
        decreases props@.len() - a,
    {
        if a >= props.len() {
            return false;
        }
        let mut b = a;
        while b < props.len() && props[b] != 32
            invariant
                a <= b <= props@.len(),
                atom_end(props@, b as int) == atom_end(props@, a as int),
            decreases props@.len() - b,
        {
            b += 1;
        }
        if eq_ignore_ascii_case(&props[a..b], w.as_bytes()) {
            return true;
        }
        if b >= props.len() {
            return false;
        }
        a = b + 1;
    }
}

/// The usage a LIST line's attributes give.
pub open spec fn usage_spec(props: Seq<u8>) -> SpecialUsage {
    if has_word_spec(props, 0, "\\Sent".spec_bytes()) {
        SpecialUsage::Sent
    } else if has_word_spec(props, 0, "\\Junk".spec_bytes()) {
        SpecialUsage::Trash
    } else if has_word_spec(props, 0, "\\Drafts".spec_bytes()) {
        SpecialUsage::Drafts
    } else {
        SpecialUsage::Normal
    }
}

/// A `* LIST (attributes) "s" path` or `* LSUB` line, after optional
/// blanks: its end, the attributes, the separator byte `s` and the path.
pub open spec fn list_line(s: Seq<u8>) -> Option<(int, Seq<u8>, u8, Seq<u8>)> {
    let i = crate::bytes::spaces_end(s, 0);
    if !(has_prefix_at(s, i, "* LIST (".spec_bytes()) || has_prefix_at(
        s,
        i,
        "* LSUB (".spec_bytes(),
    )) {
        None
    } else {
        match crate::bytes::find_spec(s, i + 8, ")".spec_bytes()) {
            None => None,
            Some(p) => if has_prefix_at(s, p, ") \"".spec_bytes()) && s.len() - p >= 6 && s[p + 4]
                == 34 {
                match mailbox_token_spec(s, p + 6) {
                    Some((path, e)) => Some((e, s.subrange(i + 8, p), s[p + 3], path)),
                    None => None,
                }
            } else {
                None
            },
        }
    }
}

/// Reads a `* LIST (flags) "sep" path` or `* LSUB ...` line into a mailbox
/// record: its hash is that of its server path, its display path uses `/`
/// for the separator, its name is what follows the last separator, and its
/// parent is the mailbox whose path precedes that separator.
pub fn list_mailbox_result(s: &[u8]) -> (r: Option<(usize, ImapMailbox)>)
    ensures
        match list_line(s@) {
            None => r is None,
            Some((e, props, sep, path)) => r matches Some((end, m)) && end == e && m.imap_path@
                == path && m.separator == sep && m.no_select == has_word_spec(
                props,
                0,
                "\\NoSelect".spec_bytes(),
            ) && m.usage == usage_spec(props),
        },
        r matches Some((e, m)) ==> {
            &&& e <= s@.len()
            &&& m.hash == hash_of(seq![m.imap_path@])
            &&& m.path@ == with_slashes(m.imap_path@, m.separator)
            &&& m.is_subscribed == (m.imap_path@ == "INBOX".spec_bytes())
            &&& match last_index(m.imap_path@, m.separator) {
                Some(pos) => m.parent == Some(hash_of(seq![m.imap_path@.subrange(0, pos)]))
                    && m.name@ == m.imap_path@.subrange(pos + 1, m.imap_path@.len() as int),
                None => m.parent is None && m.name@ == m.imap_path@,
            }
        },
{
    proof {
        reveal_strlit("* LIST (");
        assert(vstd::string::is_ascii("* LIST ("));
        reveal_strlit("* LSUB (");
        assert(vstd::string::is_ascii("* LSUB ("));
        reveal_strlit(") \"");
        assert(vstd::string::is_ascii(") \""));
        reveal_strlit(")");
        assert(vstd::string::is_ascii(")"));
    }
    let n = s.len();
    let i = skip_spaces(s, 0);
    if !(starts_with_at(s, i, "* LIST (".as_bytes()) || starts_with_at(s, i, "* LSUB (".as_bytes())) {
        return None;
    }
    let i = i + 8;
    let p = match crate::bytes::find_from(s, i, ")".as_bytes()) {
        Some(p) => p,
        None => {
            return None;
        },
    };
    let props = &s[i..p];
    if !starts_with_at(s, p, ") \"".as_bytes()) || n - p < 6 || s[p + 4] != 34 {
        return None;
    }
    let separator = s[p + 3];
    let (path, e) = match mailbox_token(s, p + 6) {
        Some(x) => x,
        None => {
            return None;
        },
    };
    let no_select = has_word(props, "\\NoSelect");
    let usage = if has_word(props, "\\Sent") {
        SpecialUsage::Sent
    } else if has_word(props, "\\Junk") {
        SpecialUsage::Trash
    } else if has_word(props, "\\Drafts") {
        SpecialUsage::Drafts
    } else {
        SpecialUsage::Normal
    };
    let mut inbox: Vec<u8> = Vec::new();
    push_str(&mut inbox, "INBOX");
    assert(inbox@ =~= "INBOX".spec_bytes());
    let is_subscribed = bytes_eq(path.as_slice(), inbox.as_slice());
    let hash = path_hash(path.as_slice());
    let display = replace_separator(path.as_slice(), separator);
    let sep_seq: Vec<u8> = vec![separator];
    assert(sep_seq@ =~= seq![separator]);
    let (name, parent) = match crate::bytes::rfind_below(path.as_slice(), sep_seq.as_slice(), path.len()) {
        Some(pos) => {
            (copy_bytes(&path[pos + 1..path.len()]), Some(path_hash(&path[0..pos])))
        },
        None => (copy_bytes(path.as_slice()), None),
    };
    Some((
        e,
        ImapMailbox {
            hash,
            name,
            path: display,
            imap_path: path,
            separator,
            parent,
            children: Vec::new(),
            is_subscribed,
            no_select,
            usage,
            permissions: MailboxPermissions::all(),
            exists: 0,
            unseen: 0,
        },
    ))
}

} // verus!

verus! {

/// `s` with every `/` replaced by `sep`.
pub open spec fn with_separator(s: Seq<u8>, sep: u8) -> Seq<u8> {
    s.map_values(|c: u8| if c == 47 { sep } else { c })
}

fn slashes_to(s: &[u8], sep: u8) -> (r: Vec<u8>)
    ensures
        r@ == with_separator(s@, sep),
{
    let mut r: Vec<u8> = Vec::new();
    let mut k: usize = 0;
    while k < s.len()
        invariant
            k <= s@.len(),
            r@ == with_separator(s@.subrange(0, k as int), sep),
        decreases s@.len() - k,
    {
        r.push(if s[k] == 47 {
            sep
        } else {
            s[k]
        });
        k += 1;
        assert(r@ =~= with_separator(s@.subrange(0, k as int), sep));
    }
    assert(s@.subrange(0, s@.len() as int) =~= s@);
    r
}

fn denied(what: &str, m: &ImapMailbox) -> MeliError {
    MeliError::new(String::from_str(what).concat(
        crate::bytes::text_from_bytes(m.name.as_slice()).as_str(),
    ).concat("`."))
}

/// The command that stores a message of `len` bytes with flags `flags` in
/// mailbox `m`; the bytes follow as a literal once the server asks for
/// them. Refused without the permission to create messages there.
pub fn append_command(m: &ImapMailbox, flags: Flag, len: usize) -> (r: Result<Vec<u8>, MeliError>)
    ensures
        r is Err <==> !m.permissions.create_messages,
        r matches Ok(c) ==> c@ == mailbox_command_spec("APPEND".spec_bytes(), m.imap_path@)
            + " (".spec_bytes() + crate::session::imap_flag_list(flags) + ") {".spec_bytes()
            + dec_digits(len as nat) + "}".spec_bytes(),
{
    if !m.permissions.create_messages {
        return Err(denied("You are not allowed to create messages in mailbox `", m));
    }
    let mut c = mailbox_command("APPEND", m.imap_path.as_slice());
    push_str(&mut c, " (");
    let list = crate::session::flags_to_imap_list(flags);
    let ghost c0 = c@;
    let mut k: usize = 0;
    while k < list.len()
        invariant
            k <= list@.len(),
            c@ == c0 + list@.subrange(0, k as int),
        decreases list@.len() - k,
    {
        c.push(list[k]);
        k += 1;
        assert(c@ =~= c0 + list@.subrange(0, k as int));
    }
    assert(list@.subrange(0, list@.len() as int) =~= list@);
    push_str(&mut c, ") {");
    push_decimal(&mut c, len);
    push_str(&mut c, "}");
    Ok(c)
}

/// The command that renames mailbox `m` to `new_path` (written with `/`,
/// which becomes the mailbox's separator). Renaming deletes the old name,
/// so it needs the permission to delete the mailbox.
pub fn rename_folder_command(m: &ImapMailbox, new_path: &[u8]) -> (r: Result<Vec<u8>, MeliError>)
    ensures
        r is Err <==> !m.permissions.delete_mailbox,
        r matches Ok(c) ==> c@ == mailbox_command_spec("RENAME".spec_bytes(), m.imap_path@)
            + seq![32u8, 34u8] + with_separator(new_path@, m.separator) + seq![34u8],
{
    if !m.permissions.delete_mailbox {
        return Err(denied("You do not have permission to rename mailbox `", m));
    }
    let target = slashes_to(new_path, m.separator);
    let mut c = mailbox_command("RENAME", m.imap_path.as_slice());
    let ghost c0 = c@;
    c.push(32);
    c.push(34);
    let ghost c1 = c@;
    let mut k: usize = 0;
    while k < target.len()
        invariant
            k <= target@.len(),
            c@ == c1 + target@.subrange(0, k as int),
        decreases target@.len() - k,
    {
        c.push(target[k]);
        k += 1;
        assert(c@ =~= c1 + target@.subrange(0, k as int));
    }
    c.push(34);
    assert(target@.subrange(0, target@.len() as int) =~= target@);
    assert(c@ =~= c0 + seq![32u8, 34u8] + target@ + seq![34u8]);
    Ok(c)
}

/// The command that changes the subscription of `m` to `new_val`; none
/// where it already is so.
pub fn subscription_command(m: &ImapMailbox, new_val: bool) -> (r: Option<Vec<u8>>)
    ensures
        m.is_subscribed == new_val ==> r is None,
        m.is_subscribed != new_val ==> (r matches Some(c) && c@ == mailbox_command_spec(
            if new_val {
                "SUBSCRIBE".spec_bytes()
            } else {
                "UNSUBSCRIBE".spec_bytes()
            },
            m.imap_path@,
        )),
{
    if m.is_subscribed == new_val {
        return None;
    }
    if new_val {
        Some(mailbox_command("SUBSCRIBE", m.imap_path.as_slice()))
    } else {
        Some(mailbox_command("UNSUBSCRIBE", m.imap_path.as_slice()))
    }
}

/// The server path of a new mailbox `path`: below the first root mailbox
/// (from `k` on) whose name starts it, its `/` become that root's
/// separator.
pub open spec fn create_path(f: Seq<ImapMailbox>, path: Seq<u8>, k: int) -> Seq<u8>
    decreases f.len() - k,
{
    if k < 0 || k >= f.len() {
        path
    } else if f[k].parent is None && crate::bytes::has_prefix(path, f[k].name@) {
        with_separator(path, f[k].separator)
    } else {
        create_path(f, path, k + 1)
    }
}

/// The server path and the CREATE and SUBSCRIBE commands of a new mailbox
/// `path`; refused where a mailbox of the table has that path already.
pub fn create_folder_commands(folders: &Vec<ImapMailbox>, path: &[u8]) -> (r: Result<
    (Vec<u8>, Vec<Vec<u8>>),
    MeliError,
>)
    ensures
        r is Ok <==> forall|k: int|
            0 <= k < folders@.len() ==> #[trigger] folders@[k].path@ != create_path(
                folders@,
                path@,
                0,
            ),
        r matches Ok((p, cmds)) ==> p@ == create_path(folders@, path@, 0) && cmds@.len() == 2
            && cmds@[0]@ == mailbox_command_spec("CREATE".spec_bytes(), p@) && cmds@[1]@
            == mailbox_command_spec("SUBSCRIBE".spec_bytes(), p@),
{
    let mut p = copy_bytes(path);
    let mut k: usize = 0;
    loop
        invariant_except_break
            k <= folders@.len(),
            p@ == path@,
            create_path(folders@, path@, k as int) == create_path(folders@, path@, 0),
        ensures
            p@ == create_path(folders@, path@, 0),
        decreases folders@.len() - k,
    {
        if k >= folders.len() {
            break ;
        }
        let f = &folders[k];
        if f.parent.is_none() && crate::bytes::starts_with(path, f.name.as_slice()) {
            p = slashes_to(path, f.separator);
            break ;
        }
        k += 1;
    }
    assert(p@ == create_path(folders@, path@, 0));
    let mut j: usize = 0;
    while j < folders.len()
        invariant
            j <= folders@.len(),
            p@ == create_path(folders@, path@, 0),
            forall|i: int| 0 <= i < j ==> #[trigger] folders@[i].path@ != p@,
        decreases folders@.len() - j,
    {
        if bytes_eq(folders[j].path.as_slice(), p.as_slice()) {
            return Err(MeliError::new(String::from_str("Mailbox named `").concat(
                crate::bytes::text_from_bytes(p.as_slice()).as_str(),
            ).concat("` already exists.")));
        }
        j += 1;
    }
    let create = mailbox_command("CREATE", p.as_slice());
    let subscribe = mailbox_command("SUBSCRIBE", p.as_slice());
    Ok((p, vec![create, subscribe]))
}

} // verus!

verus! {

/// The value of the first setting named `key`.
pub open spec fn conf_lookup(extra: Seq<(String, String)>, key: Seq<char>, from: int) -> Option<
    Seq<char>,
>
    decreases extra.len() - from,
{
    if from < 0 || from >= extra.len() {
        None
    } else if extra[from].0@ == key {
        Some(extra[from].1@)
    } else {
        conf_lookup(extra, key, from + 1)
    }
}

fn lookup<'a>(extra: &'a Vec<(String, String)>, key: &str) -> (r: Option<&'a String>)
    ensures
        conf_lookup(extra@, key@, 0) == match r {
            Some(v) => Some(v@),
            None => None::<Seq<char>>,
        },
{
    let k = String::from_str(key);
    let mut i: usize = 0;
    while i < extra.len()
        invariant
            i <= extra@.len(),
            k@ == key@,
            conf_lookup(extra@, key@, i as int) == conf_lookup(extra@, key@, 0),
        decreases extra@.len() - i,
    {
        if extra[i].0 == k {
            return Some(&extra[i].1);
        }
        i += 1;
    }
    None
}

/// `true` or `false`, written as such.
pub open spec fn bool_value(v: Seq<char>) -> Option<bool> {
    if v == "true"@ {
        Some(true)
    } else if v == "false"@ {
        Some(false)
    } else {
        None
    }
}

pub fn parse_bool(v: &String) -> (r: Option<bool>)
    ensures
        r == bool_value(v@),
{
    if *v == String::from_str("true") {
        Some(true)
    } else if *v == String::from_str("false") {
        Some(false)
    } else {
        None
    }
}

/// A port number written in decimal digits only.
pub open spec fn port_value(v: Seq<u8>) -> Option<u16> {
    match crate::bytes::decimal_at(v, 0) {
        Some((n, e)) => if e == v.len() && n <= 65535 {
            Some(n as u16)
        } else {
            None
        },
        None => None,
    }
}

pub fn parse_port(v: &String) -> (r: Option<u16>)
    ensures
        r == port_value(vstd::utf8::encode_utf8(v@)),
{
    let b = v.as_str().as_bytes();
    match crate::bytes::parse_decimal(b, 0) {
        Some((n, e)) => if e == b.len() && n <= 65535 {
            Some(n as u16)
        } else {
            None
        },
        None => None,
    }
}

fn missing(key: &str) -> MeliError {
    MeliError::new(String::from_str("Configuration error: IMAP connection requires the field `").concat(
        key,
    ).concat("` set"))
}

fn invalid(key: &str) -> MeliError {
    MeliError::new(String::from_str("Configuration error: Invalid value for field `").concat(
        key,
    ).concat("`"))
}

/// Reads the server settings of an IMAP account from its `key = value`
/// settings. The port defaults to 143; STARTTLS defaults to on unless the
/// port is 993; certificates are checked unless told otherwise. Fails,
/// before any connection, on a missing required setting or a value that
/// cannot be read.
pub fn server_conf(extra: &Vec<(String, String)>) -> (r: Result<ImapServerConf, MeliError>)
    ensures
        (conf_lookup(extra@, "server_hostname"@, 0) is Some && conf_lookup(
            extra@,
            "server_username"@,
            0,
        ) is Some && conf_lookup(extra@, "server_password"@, 0) is Some && (conf_lookup(
            extra@,
            "server_port"@,
            0,
        ) is Some ==> port_value(
            vstd::utf8::encode_utf8(conf_lookup(extra@, "server_port"@, 0).unwrap()),
        ) is Some) && (conf_lookup(extra@, "use_starttls"@, 0) is Some ==> bool_value(
            conf_lookup(extra@, "use_starttls"@, 0).unwrap(),
        ) is Some) && (conf_lookup(extra@, "danger_accept_invalid_certs"@, 0) is Some
            ==> bool_value(conf_lookup(extra@, "danger_accept_invalid_certs"@, 0).unwrap())
            is Some)) ==> r is Ok,
        conf_lookup(extra@, "server_hostname"@, 0) is None ==> r is Err,
        conf_lookup(extra@, "server_username"@, 0) is None ==> r is Err,
        conf_lookup(extra@, "server_password"@, 0) is None ==> r is Err,
        (conf_lookup(extra@, "server_port"@, 0) matches Some(v) && port_value(
            vstd::utf8::encode_utf8(v),
        ) is None) ==> r is Err,
        (conf_lookup(extra@, "use_starttls"@, 0) matches Some(v) && bool_value(v) is None) ==> r is Err,
        (conf_lookup(extra@, "danger_accept_invalid_certs"@, 0) matches Some(v) && bool_value(v) is None)
            ==> r is Err,
        r matches Ok(c) ==> {
            &&& conf_lookup(extra@, "server_hostname"@, 0) == Some(c.server_hostname@)
            &&& conf_lookup(extra@, "server_username"@, 0) == Some(c.server_username@)
            &&& conf_lookup(extra@, "server_password"@, 0) == Some(c.server_password@)
            &&& conf_lookup(extra@, "server_port"@, 0) is None ==> c.server_port == 143
            &&& conf_lookup(extra@, "server_port"@, 0) matches Some(v) ==> port_value(
                vstd::utf8::encode_utf8(v),
            ) == Some(c.server_port)
            &&& conf_lookup(extra@, "use_starttls"@, 0) is None ==> c.use_starttls == (c.server_port
                != 993)
            &&& conf_lookup(extra@, "use_starttls"@, 0) matches Some(v) ==> bool_value(v) == Some(
                c.use_starttls,
            )
            &&& conf_lookup(extra@, "danger_accept_invalid_certs"@, 0) is None
                ==> !c.danger_accept_invalid_certs
        },
{
    let server_hostname = match lookup(extra, "server_hostname") {
        Some(v) => v.clone(),
        None => {
            return Err(missing("server_hostname"));
        },
    };
    let server_username = match lookup(extra, "server_username") {
        Some(v) => v.clone(),
        None => {
            return Err(missing("server_username"));
        },
    };
    let server_password = match lookup(extra, "server_password") {
        Some(v) => v.clone(),
        None => {
            return Err(missing("server_password"));
        },
    };
    let server_port = match lookup(extra, "server_port") {
        Some(v) => match parse_port(v) {
            Some(p) => p,
            None => {
                return Err(invalid("server_port"));
            },
        },
        None => 143,
    };
    let use_starttls = match lookup(extra, "use_starttls") {
        Some(v) => match parse_bool(v) {
            Some(b) => b,
            None => {
                return Err(invalid("use_starttls"));
            },
        },
        None => server_port != 993,
    };
    let danger_accept_invalid_certs = match lookup(extra, "danger_accept_invalid_certs") {
        Some(v) => match parse_bool(v) {
            Some(b) => b,
            None => {
                return Err(invalid("danger_accept_invalid_certs"));
            },
        },
        None => false,
    };
    Ok(
        ImapServerConf {
            server_hostname,
            server_username,
            server_password,
            server_port,
            use_starttls,
            danger_accept_invalid_certs,
        },
    )
}

/// Whether an offline account should try to connect again: only once two
/// seconds have passed since the last attempt failed.
pub fn should_reconnect(online: bool, millis_since_last_attempt: u64) -> (r: bool)
    ensures
        r == (!online && millis_since_last_attempt >= 2000),
{
    !online && millis_since_last_attempt >= 2000
}

} // verus!
