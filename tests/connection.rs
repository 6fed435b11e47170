use melib::envelope::Flag;
use melib::imap::{list_mailbox_result, path_hash};
use melib::parser::{capabilities, status_response, uid_fetch_responses, untagged_responses, UntaggedResponse};
use melib::response::{RequiredResponses, FETCH, SELECT_REQUIRED};
use melib::session::{
    add_listed_mailbox, add_subscription, command_line, command_tag, fetched_flags, fetched_message,
    flags_to_imap_list, store_flags_command, GetAction, GetEvent, GetSession, ResponseWaiter,
};

#[test]
fn batched_fetch_session() {
    let mut s = GetSession::new(b"INBOX".to_vec(), false);
    let a = s.on_event(GetEvent::Start);
    assert_eq!(a, vec![GetAction::Send(b"SELECT \"INBOX\"".to_vec())]);
    let a = s.on_event(GetEvent::Selected(1001));
    assert_eq!(a, vec![GetAction::Send(b"EXAMINE \"INBOX\"".to_vec())]);
    let mut fetches = Vec::new();
    let mut payloads = 0;
    let mut finished = 0;
    let mut actions = s.on_event(GetEvent::Examined);
    loop {
        let mut more = false;
        for act in &actions {
            match act {
                GetAction::Send(c) => {
                    fetches.push(c.clone());
                    more = true;
                }
                GetAction::Payload => payloads += 1,
                GetAction::Finished => finished += 1,
                GetAction::PayloadError(_) => panic!("unexpected error"),
            }
        }
        if !more {
            break;
        }
        actions = s.on_event(GetEvent::BatchDone);
    }
    assert_eq!(
        fetches,
        vec![
            b"UID FETCH 500:1000 (UID FLAGS ENVELOPE BODYSTRUCTURE)".to_vec(),
            b"UID FETCH 1:499 (UID FLAGS ENVELOPE BODYSTRUCTURE)".to_vec()
        ]
    );
    assert_eq!(payloads, 2);
    assert_eq!(finished, 1);
    assert_eq!(actions.last(), Some(&GetAction::Finished));
}

#[test]
fn fetch_session_failure_and_no_select() {
    let mut s = GetSession::new(b"X".to_vec(), true);
    assert_eq!(s.on_event(GetEvent::Start), vec![GetAction::Payload, GetAction::Finished]);
    let mut s = GetSession::new(b"X".to_vec(), false);
    s.on_event(GetEvent::Start);
    let a = s.on_event(GetEvent::Failed(melib::error::MeliError::from_str("boom")));
    assert_eq!(a.len(), 2);
    assert_eq!(a[1], GetAction::Finished);
    assert!(s.on_event(GetEvent::BatchDone).is_empty());
    let mut s = GetSession::new(b"E".to_vec(), false);
    s.on_event(GetEvent::Start);
    s.on_event(GetEvent::Selected(1));
    assert_eq!(s.on_event(GetEvent::Examined), vec![GetAction::Finished]);
}

#[test]
fn tags_and_command_lines() {
    assert_eq!(command_tag(0), b"M0".to_vec());
    assert_eq!(command_tag(12), b"M12".to_vec());
    assert_eq!(command_line(3, b"NOOP"), b"M3 NOOP\r\n".to_vec());
}

#[test]
fn waiter_needs_tag_and_categories() {
    let mut w = ResponseWaiter::new(command_tag(7), RequiredResponses::new(SELECT_REQUIRED));
    assert!(!w.feed("* 3 EXISTS\r\n"));
    assert!(!w.feed("M7 OK done\r\n"));
    for l in [
        "* FLAGS (\\Seen)\r\n",
        "* 0 RECENT\r\n",
        "* UNSEEN 1\r\n",
        "* PERMANENTFLAGS (\\Seen)\r\n",
        "* UIDNEXT 4\r\n",
    ] {
        assert!(!w.feed(l));
    }
    assert!(w.feed("* UIDVALIDITY 9\r\n"));
    let mut w = ResponseWaiter::new(command_tag(8), RequiredResponses::new(FETCH));
    assert!(!w.feed("M7 OK old\r\n"));
    assert!(!w.feed("M8 OK done\r\n"));
    assert!(w.feed("* 1 FETCH (FLAGS ())\r\n"));
    let mut w = ResponseWaiter::new(command_tag(9), RequiredResponses::new(0));
    assert!(w.feed("M9 NO failed\r\n"));
}

#[test]
fn child_before_parent_in_list() {
    let mut t = Vec::new();
    let (_, child) = list_mailbox_result(b"* LIST (\\HasNoChildren) \".\" INBOX.Sent").unwrap();
    add_listed_mailbox(&mut t, child);
    assert_eq!(t.len(), 2);
    let inbox = path_hash(b"INBOX");
    let placeholder = t.iter().find(|m| m.hash == inbox).unwrap();
    assert_eq!(placeholder.children, vec![path_hash(b"INBOX.Sent")]);
    let (_, parent) = list_mailbox_result(b"* LIST (\\HasChildren) \".\" INBOX").unwrap();
    add_listed_mailbox(&mut t, parent);
    assert_eq!(t.len(), 2);
    let p = t.iter().find(|m| m.hash == inbox).unwrap();
    assert_eq!(p.imap_path, b"INBOX".to_vec());
    assert_eq!(p.children, vec![path_hash(b"INBOX.Sent")]);
    let (_, sub) = list_mailbox_result(b"* LSUB () \".\" INBOX.Sent").unwrap();
    add_subscription(&mut t, &sub);
    assert!(t.iter().find(|m| m.hash == path_hash(b"INBOX.Sent")).unwrap().is_subscribed);
}

#[test]
fn single_message_checks() {
    let s: &[u8] = b"* 1 FETCH (UID 4 FLAGS (\\Seen) RFC822 {3}\r\nabc)\r\n";
    let (_, v) = uid_fetch_responses(s).unwrap();
    let (body, flags) = fetched_message(&v, 4).unwrap();
    assert_eq!(body, b"abc".to_vec());
    assert!(flags.unwrap().seen);
    assert!(fetched_message(&v, 5).is_err());
    assert!(fetched_flags(&v, 4).unwrap().0.seen);
    let two: &[u8] = b"* 1 FETCH (UID 4 FLAGS ())\r\n* 2 FETCH (UID 5 FLAGS ())\r\n";
    let (_, v) = uid_fetch_responses(two).unwrap();
    assert!(fetched_flags(&v, 4).is_err());
}

#[test]
fn flag_lists_and_store() {
    let mut f = Flag::default();
    assert_eq!(flags_to_imap_list(f), b"".to_vec());
    f.seen = true;
    f.replied = true;
    assert_eq!(flags_to_imap_list(f), b"\\Answered \\Seen".to_vec());
    assert_eq!(
        store_flags_command(12, f, &vec![b"work".to_vec()]),
        b"UID STORE 12 FLAGS.SILENT (\\Answered \\Seen work)".to_vec()
    );
}

#[test]
fn capability_list() {
    let (_, caps) = capabilities(b"* CAPABILITY IMAP4rev1 IDLE AUTH=PLAIN\r\n").unwrap();
    assert_eq!(caps, vec![b"IMAP4rev1".to_vec(), b"IDLE".to_vec(), b"AUTH=PLAIN".to_vec()]);
    let (_, caps) = capabilities(b"M0 OK [CAPABILITY IMAP4rev1 LITERAL+] Logged in\r\n").unwrap();
    assert_eq!(caps, vec![b"IMAP4rev1".to_vec(), b"LITERAL+".to_vec()]);
    assert!(capabilities(b"* OK hello\r\n").is_none());
}

#[test]
fn untagged_lines() {
    match untagged_responses(b"* 3 EXPUNGE\r\n").unwrap().1 {
        Some(UntaggedResponse::Expunge(3)) => {}
        _ => panic!("expected EXPUNGE"),
    }
    match untagged_responses(b"* 12 EXISTS\r\n").unwrap().1 {
        Some(UntaggedResponse::Exists(12)) => {}
        _ => panic!("expected EXISTS"),
    }
    match untagged_responses(b"* 2 FETCH (FLAGS (\\Seen))\r\n").unwrap().1 {
        Some(UntaggedResponse::Fetch(2, (f, _))) => assert!(f.seen),
        _ => panic!("expected FETCH"),
    }
    assert!(untagged_responses(b"* 2 WHAT\r\n").unwrap().1.is_none());
    assert!(untagged_responses(b"M1 OK\r\n").is_none());
}

#[test]
fn status_counters() {
    let (_, r) = status_response(b"* STATUS blurdybloop (MESSAGES 231 UIDNEXT 44292)\r\n").unwrap();
    assert_eq!(r.messages, Some(231));
    assert_eq!(r.uidnext, Some(44292));
    assert_eq!(r.unseen, None);
    assert!(status_response(b"* LIST x\r\n").is_none());
}
