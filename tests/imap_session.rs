use melib::envelope::Envelope;
use melib::imap::{
    delete_folder_commands, envelope_hash, fetch_batches, fetch_command, list_mailbox_result,
    mailbox_token, merge_fetch_batch, path_hash, ImapMailbox, MailboxPermissions, SpecialUsage,
    UIDStore,
};
use melib::parser::uid_fetch_responses;
use fnv::FnvHashMap;

fn mailbox(delete_allowed: bool) -> ImapMailbox {
    let mut permissions = MailboxPermissions::all();
    permissions.delete_mailbox = delete_allowed;
    ImapMailbox {
        hash: path_hash(b"INBOX.Old"),
        name: b"Old".to_vec(),
        path: b"INBOX/Old".to_vec(),
        imap_path: b"INBOX.Old".to_vec(),
        separator: b'.',
        parent: None,
        children: Vec::new(),
        is_subscribed: true,
        no_select: false,
        usage: SpecialUsage::Normal,
        permissions,
        exists: 0,
        unseen: 0,
    }
}

#[test]
fn batched_fetch_plan() {
    let plan = fetch_batches(1001, 500);
    assert_eq!(plan, vec![(500, 1000), (1, 499)]);
    let commands: Vec<Vec<u8>> = plan.iter().map(|(lo, hi)| fetch_command(*lo, *hi)).collect();
    assert_eq!(commands.len(), 2);
    assert_eq!(
        commands[0],
        b"UID FETCH 500:1000 (UID FLAGS ENVELOPE BODYSTRUCTURE)".to_vec()
    );
    assert_eq!(commands[1], b"UID FETCH 1:499 (UID FLAGS ENVELOPE BODYSTRUCTURE)".to_vec());
}

#[test]
fn batched_fetch_edges() {
    assert!(fetch_batches(1, 500).is_empty());
    assert!(fetch_batches(0, 500).is_empty());
    assert_eq!(fetch_batches(2, 500), vec![(1, 1)]);
    assert_eq!(fetch_batches(11, 3), vec![(7, 10), (3, 6), (1, 2)]);
}

#[test]
fn permission_denied_delete_sends_nothing() {
    let m = mailbox(false);
    let r = delete_folder_commands(&m, true);
    assert!(r.is_err());
}

#[test]
fn delete_commands_in_order() {
    let m = mailbox(true);
    let cmds = delete_folder_commands(&m, true).unwrap();
    assert_eq!(
        cmds,
        vec![
            b"UNSUBSCRIBE \"INBOX.Old\"".to_vec(),
            b"UNSELECT \"INBOX.Old\"".to_vec(),
            b"DELETE \"INBOX.Old\"".to_vec()
        ]
    );
    let cmds = delete_folder_commands(&m, false).unwrap();
    assert_eq!(cmds.len(), 4);
    assert_eq!(cmds[1], b"SELECT \"INBOX.Old\"".to_vec());
    assert_eq!(cmds[2], b"EXAMINE \"INBOX.Old\"".to_vec());
}

#[test]
fn uid_hash_consistency_after_batches() {
    let mut store = UIDStore::new();
    let mut tags: FnvHashMap<u64, Vec<u8>> = FnvHashMap::default();
    let mbox = path_hash(b"INBOX");
    let batch1: &[u8] = b"* 1 FETCH (UID 10 FLAGS (\\Seen work) ENVELOPE (NIL \"a\" NIL NIL NIL NIL NIL NIL NIL \"<a@x>\"))\r\n* 2 FETCH (UID 11 FLAGS () ENVELOPE (NIL \"b\" NIL NIL NIL NIL NIL NIL NIL \"<b@x>\"))\r\n";
    let (_, responses) = uid_fetch_responses(batch1).unwrap();
    let (envs, uids, unseen) = merge_fetch_batch(&mut store, &mut tags, mbox, b"INBOX", responses);
    assert_eq!(uids, vec![10, 11]);
    assert_eq!(unseen, 1);
    let batch2: &[u8] = b"* 3 FETCH (UID 3 FLAGS (\\Seen) ENVELOPE (NIL \"c\" NIL NIL NIL NIL NIL NIL NIL \"<c@x>\"))\r\n";
    let (_, responses) = uid_fetch_responses(batch2).unwrap();
    let (envs2, uids2, _) = merge_fetch_batch(&mut store, &mut tags, mbox, b"INBOX", responses);
    let all: Vec<(Envelope, usize)> = envs.into_iter().zip(uids).chain(envs2.into_iter().zip(uids2)).collect();
    for (e, uid) in &all {
        assert_eq!(e.hash, envelope_hash(*uid, b"INBOX"));
        assert_eq!(store.hash_index[&e.hash], (*uid, mbox));
        assert_eq!(store.uid_index[uid], e.hash);
    }
    assert_eq!(tags.len(), 1);
    assert_eq!(all[0].0.labels.len(), 1);
    assert_eq!(store.resolve(&vec![3, 99, 10]), vec![all[2].0.hash, all[0].0.hash]);
}

#[test]
fn uidvalidity_change_is_reported() {
    let mut store = UIDStore::new();
    assert!(!store.set_uidvalidity(1, 100));
    assert!(!store.set_uidvalidity(1, 100));
    assert!(store.set_uidvalidity(1, 101));
}

#[test]
fn list_line_parsed() {
    let (_, m) = list_mailbox_result(b"* LIST (\\HasNoChildren \\Sent) \".\" INBOX.Sent").unwrap();
    assert_eq!(m.imap_path, b"INBOX.Sent".to_vec());
    assert_eq!(m.path, b"INBOX/Sent".to_vec());
    assert_eq!(m.name, b"Sent".to_vec());
    assert_eq!(m.parent, Some(path_hash(b"INBOX")));
    assert_eq!(m.hash, path_hash(b"INBOX.Sent"));
    assert_eq!(m.usage, SpecialUsage::Sent);
    assert!(!m.is_subscribed);
    let (_, m) = list_mailbox_result(b"* LSUB (\\HasChildren) \".\" inbox").unwrap();
    assert_eq!(m.imap_path, b"INBOX".to_vec());
    assert!(m.is_subscribed);
    assert_eq!(m.parent, None);
    assert!(list_mailbox_result(b"* SEARCH 1").is_none());
}

#[test]
fn mailbox_names() {
    assert_eq!(mailbox_token(b"\"My Box\" x", 0), Some((b"My Box".to_vec(), 8)));
    assert_eq!(mailbox_token(b"iNbOx", 0), Some((b"INBOX".to_vec(), 5)));
    assert_eq!(mailbox_token(b" x", 0), None);
}

#[test]
fn append_needs_permission() {
    let mut m = mailbox(true);
    let mut f = melib::envelope::Flag::default();
    f.seen = true;
    assert_eq!(
        melib::imap::append_command(&m, f, 42).unwrap(),
        b"APPEND \"INBOX.Old\" (\\Seen) {42}".to_vec()
    );
    m.permissions.create_messages = false;
    assert!(melib::imap::append_command(&m, f, 42).is_err());
}

#[test]
fn rename_uses_separator() {
    let m = mailbox(true);
    assert_eq!(
        melib::imap::rename_folder_command(&m, b"INBOX/New").unwrap(),
        b"RENAME \"INBOX.Old\" \"INBOX.New\"".to_vec()
    );
    assert!(melib::imap::rename_folder_command(&mailbox(false), b"x").is_err());
}

#[test]
fn subscription_changes_only() {
    let m = mailbox(true);
    assert_eq!(melib::imap::subscription_command(&m, true), None);
    assert_eq!(
        melib::imap::subscription_command(&m, false),
        Some(b"UNSUBSCRIBE \"INBOX.Old\"".to_vec())
    );
}

#[test]
fn create_below_root() {
    let (_, root) = list_mailbox_result(b"* LIST () \".\" INBOX").unwrap();
    let folders = vec![root, mailbox(true)];
    let (p, cmds) = melib::imap::create_folder_commands(&folders, b"INBOX/Work").unwrap();
    assert_eq!(p, b"INBOX.Work".to_vec());
    assert_eq!(cmds[0], b"CREATE \"INBOX.Work\"".to_vec());
    assert_eq!(cmds[1], b"SUBSCRIBE \"INBOX.Work\"".to_vec());
    assert!(melib::imap::create_folder_commands(&folders, b"INBOX").is_err());
}

fn settings(pairs: &[(&str, &str)]) -> Vec<(String, String)> {
    pairs.iter().map(|(k, v)| (k.to_string(), v.to_string())).collect()
}

#[test]
fn server_settings() {
    let base = [
        ("server_hostname", "mail.example.com"),
        ("server_username", "alice"),
        ("server_password", "SECRET-REDACTED"),
    ];
    let c = melib::imap::server_conf(&settings(&base)).unwrap();
    assert_eq!(c.server_hostname, "mail.example.com");
    assert_eq!(c.server_port, 143);
    assert!(c.use_starttls);
    assert!(!c.danger_accept_invalid_certs);
    let mut tls = base.to_vec();
    tls.push(("server_port", "993"));
    let c = melib::imap::server_conf(&settings(&tls)).unwrap();
    assert_eq!(c.server_port, 993);
    assert!(!c.use_starttls);
    let mut bad = base.to_vec();
    bad.push(("server_port", "99999"));
    assert!(melib::imap::server_conf(&settings(&bad)).is_err());
    let mut bad = base.to_vec();
    bad.push(("use_starttls", "yes"));
    assert!(melib::imap::server_conf(&settings(&bad)).is_err());
    assert!(melib::imap::server_conf(&settings(&base[..2])).is_err());
}

#[test]
fn reconnect_debounce() {
    assert!(!melib::imap::should_reconnect(true, 5000));
    assert!(!melib::imap::should_reconnect(false, 1999));
    assert!(melib::imap::should_reconnect(false, 2000));
}

#[test]
fn index_dropped_on_new_generation() {
    let mut store = UIDStore::new();
    store.insert(7, 1, 2);
    assert!(!store.set_uidvalidity(2, 10));
    assert!(store.set_uidvalidity(2, 11));
    store.drop_index();
    assert!(store.hash_index.is_empty());
    assert!(store.uid_index.is_empty());
    assert_eq!(store.uidvalidity[&2], 11);
}

#[test]
fn keyword_toggle_and_registration() {
    let tags = vec![b"work".to_vec(), b"later".to_vec()];
    let added = melib::session::toggle_keyword(&tags, b"urgent", true);
    assert_eq!(added, vec![b"work".to_vec(), b"later".to_vec(), b"urgent".to_vec()]);
    let again = melib::session::toggle_keyword(&added, b"work", true);
    assert_eq!(again, added);
    let removed = melib::session::toggle_keyword(&added, b"work", false);
    assert_eq!(removed, vec![b"later".to_vec(), b"urgent".to_vec()]);
    let mut table: FnvHashMap<u64, Vec<u8>> = FnvHashMap::default();
    let h = melib::imap::register_keyword(&mut table, b"urgent");
    assert_eq!(h, melib::imap::tag_hash(b"urgent"));
    assert_eq!(table[&h], b"urgent".to_vec());
    assert_eq!(melib::imap::register_keyword(&mut table, b"urgent"), h);
    assert_eq!(table.len(), 1);
}

#[test]
fn single_uid_fetch_command() {
    assert_eq!(melib::imap::uid_fetch_command(42, "FLAGS"), b"UID FETCH 42 FLAGS".to_vec());
    assert_eq!(
        melib::imap::uid_fetch_command(7, "(FLAGS RFC822)"),
        b"UID FETCH 7 (FLAGS RFC822)".to_vec()
    );
}
