//! The decisions around each exchange with the server: tagging commands,
//! telling when a response is complete, merging LIST and LSUB results into
//! the mailbox table, and checking what a single-message FETCH returned.
use crate::bytes::{has_prefix_at, starts_with_at};
use crate::envelope::Flag;
use crate::error::MeliError;
use crate::imap::{dec_digits, ImapMailbox, UID};
use crate::parser::UidFetchResponse;
use crate::response::{
    check_spec, RequiredResponses, BYE, CAPABILITY, EXISTS, EXPUNGE, FETCH, FLAGS, LIST, LSUB,
    PERMANENTFLAGS, RECENT, SEARCH, STATUS, UIDNEXT, UIDVALIDITY, UNSEEN,
};
use vstd::prelude::*;
use vstd::string::StringSliceAdditionalSpecFns;

verus! {

fn push_digits(out: &mut Vec<u8>, n: usize)
    ensures
        final(out)@ == old(out)@ + dec_digits(n as nat),
    decreases n,
{
    if n < 10 {
        out.push((48 + n) as u8);
        assert(dec_digits(n as nat) =~= seq![(48 + n) as u8]);
    } else {
        push_digits(out, n / 10);
        out.push((48 + n % 10) as u8);
    }
}

fn push_all(out: &mut Vec<u8>, s: &[u8])
    ensures
        final(out)@ == old(out)@ + s@,
{
    let ghost o0 = out@;
    let mut k: usize = 0;
    while k < s.len()
        invariant
            k <= s@.len(),
            out@ == o0 + s@.subrange(0, k as int),
        decreases s@.len() - k,
    {
        out.push(s[k]);
        k += 1;
        assert(out@ =~= o0 + s@.subrange(0, k as int));
    }
    assert(s@.subrange(0, s@.len() as int) =~= s@);
}

/// The tag of the `id`-th command of a connection: `M` and the number.
pub open spec fn tag_spec(id: nat) -> Seq<u8> {
    seq![77u8] + dec_digits(id)
}

/// The tag of the `id`-th command.
pub fn command_tag(id: usize) -> (r: Vec<u8>)
    ensures
        r@ == tag_spec(id as nat),
{
    let mut r: Vec<u8> = Vec::new();
    r.push(77);
    push_digits(&mut r, id);
    assert(r@ =~= tag_spec(id as nat));
    r
}

/// The line that sends `cmd` as the `id`-th command: tag, blank, command,
/// CRLF.
pub fn command_line(id: usize, cmd: &[u8]) -> (r: Vec<u8>)
    ensures
        r@ == tag_spec(id as nat) + seq![32u8] + cmd@ + seq![13u8, 10u8],
{
    let mut r = command_tag(id);
    r.push(32);
    push_all(&mut r, cmd);
    r.push(13);
    r.push(10);
    r
}

/// Waits for the response to one command: done once the line tagged with
/// the command's tag has come and every required category has been seen.
pub struct ResponseWaiter {
    pub tag: Vec<u8>,
    pub required: u64,
    pub seen: u64,
    pub tagged: bool,
}

/// `line` is the tagged completion line for `tag`.
pub open spec fn is_tagged_line(line: Seq<u8>, tag: Seq<u8>) -> bool {
    has_prefix_at(line, 0, tag) && has_prefix_at(line, tag.len() as int, seq![32u8])
}

impl ResponseWaiter {
    pub fn new(tag: Vec<u8>, required: RequiredResponses) -> (r: ResponseWaiter)
        ensures
            r.tag@ == tag@,
            r.required == required.bits,
            r.seen == 0,
            !r.tagged,
    {
        ResponseWaiter { tag, required: required.bits, seen: 0, tagged: false }
    }

    /// Is the response complete?
    pub open spec fn complete(&self) -> bool {
        self.tagged && self.seen & self.required == self.required
    }

    /// Takes in one line of the response; tells whether the response is now
    /// complete. The categories met are remembered in any order, also when
    /// they come after the tagged line.
    pub fn feed(&mut self, line: &str) -> (done: bool)
        ensures
            final(self).tag == old(self).tag,
            final(self).required == old(self).required,
            final(self).tagged == (old(self).tagged || is_tagged_line(
                line.spec_bytes(),
                old(self).tag@,
            )),
            final(self).seen == old(self).seen | matched(old(self).required, line.spec_bytes()),
            done == final(self).complete(),
    {
        let l = line.as_bytes();
        let sp: Vec<u8> = vec![32u8];
        assert(sp@ =~= seq![32u8]);
        if starts_with_at(l, 0, self.tag.as_slice()) && starts_with_at(
            l,
            self.tag.len(),
            sp.as_slice(),
        ) {
            self.tagged = true;
        }
        let m = one(self.required, CAPABILITY, line) | one(self.required, BYE, line) | one(
            self.required,
            FLAGS,
            line,
        ) | one(self.required, EXISTS, line) | one(self.required, RECENT, line) | one(
            self.required,
            UNSEEN,
            line,
        ) | one(self.required, PERMANENTFLAGS, line) | one(self.required, UIDNEXT, line) | one(
            self.required,
            UIDVALIDITY,
            line,
        ) | one(self.required, LIST, line) | one(self.required, LSUB, line) | one(
            self.required,
            STATUS,
            line,
        ) | one(self.required, EXPUNGE, line) | one(self.required, SEARCH, line) | one(
            self.required,
            FETCH,
            line,
        );
        self.seen = self.seen | m;
        self.tagged && self.seen & self.required == self.required
    }
}

/// Category `c` if it is required and `line` belongs to it, else nothing.
pub open spec fn one_spec(required: u64, c: u64, line: Seq<u8>) -> u64 {
    if required & c != 0 && check_spec(c, line) {
        c
    } else {
        0
    }
}

fn one(required: u64, c: u64, line: &str) -> (r: u64)
    ensures
        r == one_spec(required, c, line.spec_bytes()),
{
    if required & c != 0 && RequiredResponses::new(c).check(line) {
        c
    } else {
        0
    }
}

/// The required categories that `line` belongs to.
pub open spec fn matched(required: u64, line: Seq<u8>) -> u64 {
    one_spec(required, CAPABILITY, line) | one_spec(required, BYE, line) | one_spec(
        required,
        FLAGS,
        line,
    ) | one_spec(required, EXISTS, line) | one_spec(required, RECENT, line) | one_spec(
        required,
        UNSEEN,
        line,
    ) | one_spec(required, PERMANENTFLAGS, line) | one_spec(required, UIDNEXT, line) | one_spec(
        required,
        UIDVALIDITY,
        line,
    ) | one_spec(required, LIST, line) | one_spec(required, LSUB, line) | one_spec(
        required,
        STATUS,
        line,
    ) | one_spec(required, EXPUNGE, line) | one_spec(required, SEARCH, line) | one_spec(
        required,
        FETCH,
        line,
    )
}

} // verus!

verus! {

/// Position of the mailbox with hash `h` in the table.
pub open spec fn index_of(t: Seq<ImapMailbox>, h: u64) -> Option<int> {
    if exists|k: int| 0 <= k < t.len() && #[trigger] t[k].hash == h {
        Some(choose|k: int| 0 <= k < t.len() && #[trigger] t[k].hash == h)
    } else {
        None
    }
}

/// No two mailboxes of the table share a hash.
pub open spec fn unique_hashes(t: Seq<ImapMailbox>) -> bool {
    forall|i: int, j: int| 0 <= i < j < t.len() ==> #[trigger] t[i].hash != #[trigger] t[j].hash
}

fn find_mailbox(t: &Vec<ImapMailbox>, h: u64) -> (r: Option<usize>)
    ensures
        match r {
            Some(k) => k < t@.len() && t@[k as int].hash == h,
            None => forall|k: int| 0 <= k < t@.len() ==> #[trigger] t@[k].hash != h,
        },
{
    let mut k: usize = 0;
    while k < t.len()
        invariant
            k <= t@.len(),
            forall|j: int| 0 <= j < k ==> #[trigger] t@[j].hash != h,
        decreases t@.len() - k,
    {
        if t[k].hash == h {
            return Some(k);
        }
        k += 1;
    }
    None
}

/// A record that only holds children, standing for a parent mailbox that
/// LIST has not named yet.
fn placeholder(hash: u64, child: u64) -> (r: ImapMailbox)
    ensures
        r.hash == hash,
        r.children@ == seq![child],
{
    ImapMailbox {
        hash,
        name: Vec::new(),
        path: Vec::new(),
        imap_path: Vec::new(),
        separator: 47,
        parent: None,
        children: vec![child],
        is_subscribed: false,
        no_select: false,
        usage: crate::imap::SpecialUsage::Normal,
        permissions: crate::imap::MailboxPermissions::all(),
        exists: 0,
        unseen: 0,
    }
}

/// Enters a mailbox read from a LIST line into the table. Its parent, named
/// or not yet, lists it as a child; a record that already stood for it
/// (made when one of its children came first) is replaced by it, keeping
/// the children gathered so far.
pub fn add_listed_mailbox(t: &mut Vec<ImapMailbox>, m: ImapMailbox)
    requires
        unique_hashes(old(t)@),
    ensures
        unique_hashes(final(t)@),
        exists|k: int|
            0 <= k < final(t)@.len() && #[trigger] final(t)@[k].hash == m.hash
                && final(t)@[k].imap_path == m.imap_path && final(t)@[k].name == m.name
                && final(t)@[k].parent == m.parent,
        m.parent is Some && m.parent.unwrap() != m.hash ==> exists|k: int|
            0 <= k < final(t)@.len() && #[trigger] final(t)@[k].hash == m.parent.unwrap()
                && final(t)@[k].children@.contains(m.hash),
        final(t)@.len() >= old(t)@.len(),
        forall|k: int| 0 <= k < old(t)@.len() ==> #[trigger] final(t)@[k].hash == old(t)@[k].hash,
        forall|k: int|
            0 <= k < old(t)@.len() && old(t)@[k].hash == m.hash ==> #[trigger] final(t)@[k].children
                == old(t)@[k].children,
{
    let mut m = m;
    let ghost t0 = t@;
    let ghost mut ppos: int = -1;
    if let Some(p) = m.parent {
        if p != m.hash {
            match find_mailbox(t, p) {
                Some(k) => {
                    let ghost before = t@;
                    let mut e = t.remove(k);
                    e.children.push(m.hash);
                    assert(e.children@.last() == m.hash);
                    assert(e.children@.contains(m.hash));
                    t.insert(k, e);
                    assert(t@ =~= before.update(k as int, e));
                    proof {
                        ppos = k as int;
                    }
                },
                None => {
                    t.push(placeholder(p, m.hash));
                    assert(t@.last().children@[0] == m.hash);
                    assert(t@.last().children@.contains(m.hash));
                    proof {
                        ppos = t@.len() - 1;
                    }
                },
            }
        }
    }
    let ghost t1 = t@;
    assert(forall|k: int| 0 <= k < t0.len() ==> #[trigger] t1[k].hash == t0[k].hash);
    assert(unique_hashes(t1)) by {
        assert forall|i: int, j: int| 0 <= i < j < t1.len() implies #[trigger] t1[i].hash
            != #[trigger] t1[j].hash by {
            if j < t0.len() {
                assert(t1[i].hash == t0[i].hash && t1[j].hash == t0[j].hash);
            } else {
                assert(t1[i].hash == t0[i].hash);
            }
        }
    }
    let ghost mh = m.hash;
    let ghost mpath = m.imap_path;
    let ghost mname = m.name;
    let ghost mparent = m.parent;
    let ghost mut pos: int = 0;
    match find_mailbox(t, m.hash) {
        Some(k) => {
            let ghost before = t@;
            let e = t.remove(k);
            m.children = e.children;
            t.insert(k, m);
            assert(t@ =~= before.update(k as int, m));
            proof {
                pos = k as int;
            }
        },
        None => {
            t.push(m);
            proof {
                pos = t@.len() - 1;
            }
        },
    }
    proof {
        assert forall|k: int| 0 <= k < t1.len() && k != pos implies #[trigger] t@[k] == t1[k] by {}
        assert forall|i: int, j: int| 0 <= i < j < t@.len() implies #[trigger] t@[i].hash
            != #[trigger] t@[j].hash by {
            if j < t1.len() {
                assert(t@[i].hash == t1[i].hash && t@[j].hash == t1[j].hash);
            } else {
                assert(t@[i].hash == t1[i].hash);
            }
        }
        assert(t@[pos].hash == mh && t@[pos].imap_path == mpath && t@[pos].name == mname
            && t@[pos].parent == mparent);
        if mparent is Some && mparent.unwrap() != mh {
            assert(t1[ppos].hash == mparent.unwrap());
            assert(ppos != pos);
            assert(t@[ppos] == t1[ppos]);
        }
        assert forall|k: int| 0 <= k < t0.len() implies #[trigger] t@[k].hash == t0[k].hash by {
            assert(t1[k].hash == t0[k].hash);
        }
        assert forall|k: int|
            0 <= k < t0.len() && t0[k].hash == mh implies #[trigger] t@[k].children
                == t0[k].children by {
            assert(t1[k].hash == mh);
            assert(k == pos);
            assert(k != ppos || !(mparent is Some && mparent.unwrap() != mh));
            assert(t1[k] == t0[k]);
        }
    }
}

/// Marks the mailbox named by an LSUB line as subscribed, unless that line
/// says it cannot be selected.
pub fn add_subscription(t: &mut Vec<ImapMailbox>, sub: &ImapMailbox)
    ensures
        final(t)@.len() == old(t)@.len(),
        forall|k: int|
            #![trigger final(t)@[k]]
            0 <= k < final(t)@.len() ==> final(t)@[k].hash == old(t)@[k].hash
                && final(t)@[k].is_subscribed == (old(t)@[k].is_subscribed || (old(t)@[k].hash
                == sub.hash && !sub.no_select)),
{
    if sub.no_select {
        return;
    }
    let mut k: usize = 0;
    let ghost t0 = t@;
    while k < t.len()
        invariant
            k <= t@.len(),
            t@.len() == t0.len(),
            !sub.no_select,
            forall|j: int|
                #![trigger t@[j]]
                0 <= j < t@.len() ==> t@[j].hash == t0[j].hash && t@[j].is_subscribed == (
                t0[j].is_subscribed || (j < k && t0[j].hash == sub.hash)),
        decreases t@.len() - k,
    {
        let ghost before = t@;
        if t[k].hash == sub.hash {
            let mut e = t.remove(k);
            e.is_subscribed = true;
            t.insert(k, e);
            assert(t@ =~= before.update(k as int, e));
        }
        proof {
            assert forall|j: int| #![trigger t@[j]] 0 <= j < t@.len() implies t@[j].hash == t0[j].hash
                && t@[j].is_subscribed == (t0[j].is_subscribed || (j < k + 1 && t0[j].hash
                == sub.hash)) by {
                if j != k {
                    assert(t@[j] == before[j]);
                }
                assert(before[j].hash == t0[j].hash);
            }
        }
        k += 1;
    }
}

/// What one `UID FETCH uid (FLAGS RFC822)` must give back: exactly one
/// response, for that UID, with a body. Its bytes and flags.
pub fn fetched_message(responses: &Vec<UidFetchResponse<'_>>, uid: UID) -> (r: Result<
    (Vec<u8>, Option<Flag>),
    MeliError,
>)
    ensures
        r is Ok <==> (responses@.len() == 1 && responses@[0].uid == uid
            && responses@[0].body is Some),
        r matches Ok((b, _)) ==> b@ == responses@[0].body.unwrap()@,
{
    if responses.len() != 1 {
        return Err(MeliError::from_str("Invalid/unexpected response: expected one FETCH response"));
    }
    let resp = &responses[0];
    if resp.uid != uid {
        return Err(MeliError::from_str("Server returned a different message than requested"));
    }
    match resp.body {
        Some(b) => {
            let flags = match &resp.flags {
                Some((f, _)) => Some(*f),
                None => None,
            };
            Ok((crate::bytes::copy_bytes(b), flags))
        },
        None => Err(MeliError::from_str("FETCH response holds no message body")),
    }
}

/// What one `UID FETCH uid FLAGS` must give back: exactly one response,
/// for that UID, with flags.
pub fn fetched_flags(responses: &Vec<UidFetchResponse<'_>>, uid: UID) -> (r: Result<
    (Flag, Vec<Vec<u8>>),
    MeliError,
>)
    ensures
        r is Ok <==> (responses@.len() == 1 && responses@[0].uid == uid
            && responses@[0].flags is Some),
        r matches Ok((f, _)) ==> responses@[0].flags matches Some((g, _)) && f == g,
{
    if responses.len() != 1 {
        return Err(MeliError::from_str("Invalid/unexpected response: expected one FETCH response"));
    }
    let resp = &responses[0];
    if resp.uid != uid {
        return Err(MeliError::from_str("Server returned a different message than requested"));
    }
    match &resp.flags {
        Some((f, kw)) => {
            let mut keywords: Vec<Vec<u8>> = Vec::new();
            let mut k: usize = 0;
            while k < kw.len()
                invariant
                    k <= kw@.len(),
                decreases kw@.len() - k,
            {
                keywords.push(crate::bytes::copy_bytes(kw[k].as_slice()));
                k += 1;
            }
            Ok((*f, keywords))
        },
        None => Err(MeliError::from_str("FETCH response holds no flags")),
    }
}

/// `acc` with `word` added, blank-separated, where `set` holds.
pub open spec fn add_word(acc: Seq<u8>, set: bool, word: Seq<u8>) -> Seq<u8> {
    if set {
        if acc.len() == 0 {
            word
        } else {
            acc + seq![32u8] + word
        }
    } else {
        acc
    }
}

/// The system flags of `f` as an IMAP flag list: `\Answered \Flagged
/// \Deleted \Seen \Draft`, those that are set, in that order.
pub open spec fn imap_flag_list(f: Flag) -> Seq<u8> {
    add_word(
        add_word(
            add_word(
                add_word(add_word(Seq::empty(), f.replied, "\\Answered".spec_bytes()), f.flagged, "\\Flagged".spec_bytes()),
                f.trashed,
                "\\Deleted".spec_bytes(),
            ),
            f.seen,
            "\\Seen".spec_bytes(),
        ),
        f.draft,
        "\\Draft".spec_bytes(),
    )
}

fn join_word(acc: &mut Vec<u8>, set: bool, word: &str)
    ensures
        final(acc)@ == add_word(old(acc)@, set, word.spec_bytes()),
{
    if set {
        if acc.len() > 0 {
            acc.push(32);
        }
        push_all(acc, word.as_bytes());
        assert(old(acc)@.len() == 0 ==> acc@ =~= word.spec_bytes());
    }
}

pub fn flags_to_imap_list(f: Flag) -> (r: Vec<u8>)
    ensures
        r@ == imap_flag_list(f),
{
    let mut r: Vec<u8> = Vec::new();
    assert(r@ =~= Seq::<u8>::empty());
    join_word(&mut r, f.replied, "\\Answered");
    join_word(&mut r, f.flagged, "\\Flagged");
    join_word(&mut r, f.trashed, "\\Deleted");
    join_word(&mut r, f.seen, "\\Seen");
    join_word(&mut r, f.draft, "\\Draft");
    r
}

/// Each keyword of `tags` after a blank.
pub open spec fn keyword_list(tags: Seq<Vec<u8>>) -> Seq<u8>
    decreases tags.len(),
{
    if tags.len() == 0 {
        Seq::empty()
    } else {
        keyword_list(tags.drop_last()) + seq![32u8] + tags.last()@
    }
}

/// `UID STORE uid FLAGS.SILENT (flags keywords)`.
pub open spec fn store_command_spec(uid: nat, f: Flag, tags: Seq<Vec<u8>>) -> Seq<u8> {
    "UID STORE ".spec_bytes() + dec_digits(uid) + " FLAGS.SILENT (".spec_bytes() + imap_flag_list(f)
        + keyword_list(tags) + seq![41u8]
}

/// The command that sets the flags of message `uid` to `f` and the
/// keywords `tags`, without the server echoing them back.
pub fn store_flags_command(uid: UID, f: Flag, tags: &Vec<Vec<u8>>) -> (r: Vec<u8>)
    ensures
        r@ == store_command_spec(uid as nat, f, tags@),
{
    let mut r: Vec<u8> = Vec::new();
    push_all(&mut r, "UID STORE ".as_bytes());
    push_digits(&mut r, uid);
    push_all(&mut r, " FLAGS.SILENT (".as_bytes());
    let list = flags_to_imap_list(f);
    push_all(&mut r, list.as_slice());
    let ghost head = r@;
    let mut k: usize = 0;
    assert(tags@.subrange(0, 0) =~= Seq::<Vec<u8>>::empty());
    assert(head + keyword_list(tags@.subrange(0, 0)) =~= head);
    while k < tags.len()
        invariant
            k <= tags@.len(),
            r@ == head + keyword_list(tags@.subrange(0, k as int)),
        decreases tags@.len() - k,
    {
        r.push(32);
        push_all(&mut r, tags[k].as_slice());
        assert(tags@.subrange(0, k + 1).drop_last() =~= tags@.subrange(0, k as int));
        assert(r@ =~= head + keyword_list(tags@.subrange(0, k + 1)));
        k += 1;
    }
    assert(tags@.subrange(0, tags@.len() as int) =~= tags@);
    r.push(41);
    assert(r@ =~= store_command_spec(uid as nat, f, tags@));
    r
}

} // verus!

verus! {

/// Largest number of UIDs below the top one of a fetch batch.
pub const FETCH_BATCH: usize = 500;

/// What the envelope fetch of one mailbox does next.
#[derive(Debug, PartialEq)]
pub enum GetAction {
    /// Send this command and report what came back.
    Send(Vec<u8>),
    /// Hand the envelopes of the batch just merged to the caller.
    Payload,
    /// Hand this error to the caller.
    PayloadError(MeliError),
    /// The fetch is over.
    Finished,
}

/// What happened since the last action.
pub enum GetEvent {
    Start,
    /// The SELECT answered with this UIDNEXT.
    Selected(usize),
    /// The EXAMINE answered.
    Examined,
    /// The last batch was parsed and merged.
    BatchDone,
    /// An exchange or a parse failed.
    Failed(MeliError),
}

#[derive(Clone, Copy, Debug, PartialEq, Eq, Structural)]
pub enum GetPhase {
    Idle,
    Selecting,
    Examining,
    Fetching,
    Done,
}

/// The envelope fetch of one mailbox: SELECT to learn the permissions,
/// EXAMINE so that nothing is expunged by accident, then UID FETCH in
/// batches from the newest UIDs down, each batch reported before the next is
/// asked for.
pub struct GetSession {
    pub path: Vec<u8>,
    pub no_select: bool,
    pub phase: GetPhase,
    pub plan: Vec<(usize, usize)>,
    pub next: usize,
    pub payloads: usize,
}

impl GetSession {
    pub fn new(path: Vec<u8>, no_select: bool) -> (r: GetSession)
        ensures
            r.path@ == path@,
            r.no_select == no_select,
            r.phase == GetPhase::Idle,
            r.plan@.len() == 0,
            r.next == 0,
            r.payloads == 0,
    {
        GetSession { path, no_select, phase: GetPhase::Idle, plan: Vec::new(), next: 0, payloads: 0 }
    }

    pub open spec fn wf(&self) -> bool {
        &&& self.next <= self.plan@.len()
        &&& self.payloads <= self.next
        &&& (self.phase == GetPhase::Fetching ==> self.next < self.plan@.len())
    }

    /// The actions that follow `ev`. Every batch of the plan is fetched once,
    /// newest first, and reported before the next is asked for; the last
    /// action of a fetch is `Finished`.
    pub fn on_event(&mut self, ev: GetEvent) -> (r: Vec<GetAction>)
        requires
            old(self).wf(),
        ensures
            final(self).wf(),
            final(self).path == old(self).path,
            final(self).no_select == old(self).no_select,
            !(ev is Selected && old(self).phase == GetPhase::Selecting) ==> final(self).plan
                == old(self).plan,
            old(self).phase == GetPhase::Done ==> r@.len() == 0 && *final(self) == *old(self),
            ev is Start && old(self).phase == GetPhase::Idle && !old(self).no_select ==> (r@[0] matches GetAction::Send(c)
                && c@ == crate::imap::mailbox_command_spec("SELECT".spec_bytes(), old(self).path@)),
            ev is Selected && old(self).phase == GetPhase::Selecting ==> (r@[0] matches GetAction::Send(c)
                && c@ == crate::imap::mailbox_command_spec("EXAMINE".spec_bytes(), old(self).path@)),
            ev is Start && old(self).phase == GetPhase::Idle && old(self).no_select ==> r@.len() == 2
                && r@[0] == GetAction::Payload && r@[1] == GetAction::Finished
                && final(self).phase == GetPhase::Done,
            ev is Start && old(self).phase == GetPhase::Idle && !old(self).no_select ==> r@.len() == 1
                && r@[0] is Send && final(self).phase == GetPhase::Selecting,
            ev is Selected && old(self).phase == GetPhase::Selecting ==> r@.len() == 1
                && r@[0] is Send && final(self).phase == GetPhase::Examining
                && final(self).plan@.map_values(|p: (usize, usize)| (p.0 as nat, p.1 as nat))
                == crate::imap::batches_from(
                if ev->Selected_0 > 0 {
                    (ev->Selected_0 - 1) as nat
                } else {
                    0
                },
                FETCH_BATCH as nat,
            ) && final(self).next == 0,
            ev is Examined && old(self).phase == GetPhase::Examining ==> (if old(self).plan@.len() == 0 {
                r@ == seq![GetAction::Finished] && final(self).phase == GetPhase::Done
            } else {
                r@.len() == 1 && (r@[0] matches GetAction::Send(c) && c@
                    == crate::imap::fetch_command_spec(
                    old(self).plan@[0].0 as nat,
                    old(self).plan@[0].1 as nat,
                )) && final(self).phase == GetPhase::Fetching && final(self).next == 0
                    && final(self).payloads == 0
            }),
            ev is BatchDone && old(self).phase == GetPhase::Fetching ==> final(self).payloads
                == old(self).payloads + 1 && final(self).next == old(self).next + 1 && r@[0]
                == GetAction::Payload && (if old(self).next + 1 < old(self).plan@.len() {
                r@.len() == 2 && (r@[1] matches GetAction::Send(c) && c@
                    == crate::imap::fetch_command_spec(
                    old(self).plan@[old(self).next + 1].0 as nat,
                    old(self).plan@[old(self).next + 1].1 as nat,
                )) && final(self).phase == GetPhase::Fetching
            } else {
                r@.len() == 2 && r@[1] == GetAction::Finished && final(self).phase == GetPhase::Done
            }),
            ev is Failed && old(self).phase != GetPhase::Done ==> r@.len() == 2
                && r@[0] is PayloadError && r@[1] == GetAction::Finished && final(self).phase
                == GetPhase::Done,
    {
        let mut out: Vec<GetAction> = Vec::new();
        match ev {
            GetEvent::Failed(e) => {
                if self.phase != GetPhase::Done {
                    out.push(GetAction::PayloadError(e));
                    out.push(GetAction::Finished);
                    self.phase = GetPhase::Done;
                }
            },
            GetEvent::Start => {
                if self.phase == GetPhase::Idle {
                    if self.no_select {
                        out.push(GetAction::Payload);
                        out.push(GetAction::Finished);
                        self.phase = GetPhase::Done;
                    } else {
                        out.push(GetAction::Send(crate::imap::mailbox_command("SELECT", self.path.as_slice())));
                        self.phase = GetPhase::Selecting;
                    }
                }
            },
            GetEvent::Selected(uidnext) => {
                if self.phase == GetPhase::Selecting {
                    self.plan = crate::imap::fetch_batches(uidnext, FETCH_BATCH);
                    self.next = 0;
                    self.payloads = 0;
                    out.push(GetAction::Send(crate::imap::mailbox_command("EXAMINE", self.path.as_slice())));
                    self.phase = GetPhase::Examining;
                }
            },
            GetEvent::Examined => {
                if self.phase == GetPhase::Examining {
                    if self.plan.len() == 0 {
                        out.push(GetAction::Finished);
                        self.phase = GetPhase::Done;
                    } else {
                        let (lo, hi) = self.plan[0];
                        out.push(GetAction::Send(crate::imap::fetch_command(lo, hi)));
                        self.next = 0;
                        self.payloads = 0;
                        self.phase = GetPhase::Fetching;
                    }
                }
            },
            GetEvent::BatchDone => {
                if self.phase == GetPhase::Fetching {
                    let n = self.plan.len();
                    assert(self.next < n);
                    out.push(GetAction::Payload);
                    self.payloads = self.payloads + 1;
                    self.next = self.next + 1;
                    if self.next < self.plan.len() {
                        let (lo, hi) = self.plan[self.next];
                        out.push(GetAction::Send(crate::imap::fetch_command(lo, hi)));
                    } else {
                        out.push(GetAction::Finished);
                        self.phase = GetPhase::Done;
                    }
                }
            },
        }
        out
    }
}

} // verus!

verus! {

/// A UIDVALIDITY other than the one recorded for `mailbox` was reported.
pub open spec fn stale(s: crate::imap::UIDStore, mailbox: u64, v: UID) -> bool {
    s.uidvalidity@.contains_key(mailbox) && s.uidvalidity@[mailbox] != v
}

/// `tags` with `tag` added (once, at the end, where it was missing) or
/// removed (every copy).
pub open spec fn toggled(tags: Seq<Seq<u8>>, tag: Seq<u8>, value: bool) -> Seq<Seq<u8>> {
    if value {
        if tags.contains(tag) {
            tags
        } else {
            tags.push(tag)
        }
    } else {
        tags.filter(|x: Seq<u8>| x != tag)
    }
}

/// Sets or clears the keyword `tag` of a message's keywords.
pub fn toggle_keyword(tags: &Vec<Vec<u8>>, tag: &[u8], value: bool) -> (r: Vec<Vec<u8>>)
    ensures
        crate::parser::views(r@) == toggled(crate::parser::views(tags@), tag@, value),
{
    let mut r: Vec<Vec<u8>> = Vec::new();
    let mut found = false;
    let mut k: usize = 0;
    let ghost tv = crate::parser::views(tags@);
    while k < tags.len()
        invariant
            k <= tags@.len(),
            tv == crate::parser::views(tags@),
            found == tv.subrange(0, k as int).contains(tag@),
            crate::parser::views(r@) == if value {
                tv.subrange(0, k as int)
            } else {
                tv.subrange(0, k as int).filter(|x: Seq<u8>| x != tag@)
            },
        decreases tags@.len() - k,
    {
        let ghost r0 = crate::parser::views(r@);
        let same = crate::bytes::bytes_eq(tags[k].as_slice(), tag);
        assert(tv.subrange(0, k + 1).drop_last() =~= tv.subrange(0, k as int));
        assert(tv[k as int] == tags@[k as int]@);
        if same {
            found = true;
        }
        if value || !same {
            let w = crate::bytes::copy_bytes(tags[k].as_slice());
            r.push(w);
            assert(crate::parser::views(r@) =~= r0.push(w@));
        }
        proof {
            assert(tv.subrange(0, k + 1).contains(tag@) == (tv.subrange(0, k as int).contains(tag@)
                || tv[k as int] == tag@)) by {
                if tv.subrange(0, k as int).contains(tag@) {
                    let q = choose|q: int| 0 <= q < k && #[trigger] tv.subrange(0, k as int)[q] == tag@;
                    assert(tv.subrange(0, k + 1)[q] == tag@);
                }
                if tv.subrange(0, k + 1).contains(tag@) {
                    let q = choose|q: int| 0 <= q < k + 1 && #[trigger] tv.subrange(0, k + 1)[q] == tag@;
                    if q < k {
                        assert(tv.subrange(0, k as int)[q] == tag@);
                    }
                }
                assert(tv.subrange(0, k + 1)[k as int] == tv[k as int]);
            }
            if !value {
                tv.subrange(0, k as int).lemma_filter_push(tv[k as int], |x: Seq<u8>| x != tag@);
                assert(tv.subrange(0, k + 1) =~= tv.subrange(0, k as int).push(tv[k as int]));
            }
        }
        k += 1;
    }
    assert(tv.subrange(0, tags@.len() as int) =~= tv);
    if value && !found {
        let w = crate::bytes::copy_bytes(tag);
        let ghost r0 = crate::parser::views(r@);
        r.push(w);
        assert(crate::parser::views(r@) =~= r0.push(tag@));
    }
    r
}

/// Takes in what a SELECT reported for `mailbox`: records the UIDVALIDITY
/// and drops the UID index when it changed (its UIDs are stale), sets the
/// message permissions from whether the mailbox is writable, and counts the
/// messages below UIDNEXT. Gives back UIDNEXT.
pub fn apply_select(
    store: &mut crate::imap::UIDStore,
    mailbox: &mut ImapMailbox,
    sel: &crate::parser::SelectResponse,
) -> (uidnext: usize)
    ensures
        uidnext == sel.uidnext,
        final(store).uidvalidity@ == old(store).uidvalidity@.insert(old(mailbox).hash, sel.uidvalidity),
        stale(*old(store), old(mailbox).hash, sel.uidvalidity) ==> final(store).hash_index@.len() == 0
            && final(store).uid_index@.len() == 0,
        !stale(*old(store), old(mailbox).hash, sel.uidvalidity) ==> final(store).hash_index@ == old(store).hash_index@
            && final(store).uid_index@ == old(store).uid_index@,
        final(mailbox).hash == old(mailbox).hash,
        final(mailbox).imap_path == old(mailbox).imap_path,
        final(mailbox).exists == if sel.uidnext > 0 {
            (sel.uidnext - 1) as usize
        } else {
            0
        },
        final(mailbox).permissions.create_messages == !sel.read_only,
        final(mailbox).permissions.set_flags == !sel.read_only,
        final(mailbox).permissions.delete_messages == !sel.read_only,
        final(mailbox).permissions.delete_mailbox == old(mailbox).permissions.delete_mailbox,
{
    if store.set_uidvalidity(mailbox.hash, sel.uidvalidity) {
        store.drop_index();
    }
    crate::imap::apply_select_permissions(&mut mailbox.permissions, sel.read_only);
    mailbox.exists = if sel.uidnext > 0 {
        sel.uidnext - 1
    } else {
        0
    };
    sel.uidnext
}

/// A line that ends with a literal announcement `{n}` and CRLF: `n`.
pub open spec fn literal_header_spec(line: Seq<u8>) -> Option<nat> {
    if !crate::bytes::has_suffix(line, seq![125u8, 13u8, 10u8]) {
        None
    } else {
        match crate::bytes::rfind_before(line, seq![123u8], line.len() as int) {
            None => None,
            Some(q) => match crate::bytes::decimal_at(line, q + 1) {
                Some((n, e)) => if e == line.len() - 3 {
                    Some(n)
                } else {
                    None
                },
                None => None,
            },
        }
    }
}

/// The length a line announces for the literal that follows it.
pub fn literal_header(line: &[u8]) -> (r: Option<usize>)
    ensures
        literal_header_spec(line@) == match r {
            Some(n) => Some(n as nat),
            None => None,
        },
{
    let close: Vec<u8> = vec![125u8, 13u8, 10u8];
    let open: Vec<u8> = vec![123u8];
    assert(close@ =~= seq![125u8, 13u8, 10u8]);
    assert(open@ =~= seq![123u8]);
    if !crate::bytes::ends_with(line, close.as_slice()) {
        return None;
    }
    let q = match crate::bytes::rfind_below(line, open.as_slice(), line.len()) {
        Some(q) => q,
        None => {
            return None;
        },
    };
    match crate::bytes::parse_decimal(line, q + 1) {
        Some((n, e)) => if e == line.len() - 3 {
            Some(n)
        } else {
            None
        },
        None => None,
    }
}

} // verus!
