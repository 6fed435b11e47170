use melib::parser::{
    envelope, envelope_address, envelope_addresses, flags, literal, search_results,
    search_results_raw, select_response, uid_fetch_response, uid_fetch_responses,
    bodystructure_has_attachments,
};
use melib::response::{ImapResponse, RequiredResponses, ResponseCode, EXISTS, FETCH, FLAGS, SEARCH};
use melib::response::ImapLineIterator;

#[test]
fn test_imap_response() {
    assert_eq!(ImapResponse::from("M12 NO [CANNOT] Invalid mailbox name: Name must not have \'/\' characters (0.000 + 0.098 + 0.097 secs).\r\n"), ImapResponse::No(ResponseCode::Alert("Invalid mailbox name: Name must not have '/' characters".to_string())));
}

#[test]
fn test_imap_search() {
    assert_eq!(search_results(b"* SEARCH\r\n").map(|(_, v)| v), Ok(vec![]));
    assert_eq!(
        search_results(b"* SEARCH 1\r\n").map(|(_, v)| v),
        Ok(vec![1])
    );
    assert_eq!(
        search_results(b"* SEARCH 1 2 3 4\r\n").map(|(_, v)| v),
        Ok(vec![1, 2, 3, 4])
    );
    assert_eq!(
        search_results_raw(b"* SEARCH 1 2 3 4\r\n").map(|(_, v)| v),
        Ok(&b"1 2 3 4"[..])
    );
}

#[test]
fn search_results_rejects_garbage() {
    assert!(search_results(b"* SEARCH x\r\n").is_err());
    assert!(search_results(b"* FETCH 1\r\n").is_err());
    assert!(search_results(b"* SEARCH 1 2").is_err());
}

#[test]
fn status_line_ok_with_code() {
    let r = ImapResponse::parse(b"M3 OK [READ-WRITE] SELECT completed\r\n");
    assert_eq!(r, Some(ImapResponse::Okay(ResponseCode::ReadWrite)));
    let r = ImapResponse::parse(b"* 1 EXISTS\r\nM4 OK [UIDNEXT 4392] Predicted next UID\r\n");
    assert_eq!(r, Some(ImapResponse::Okay(ResponseCode::Uidnext(4392))));
    let r = ImapResponse::parse(b"M5 BAD [BADCHARSET (UTF-8 US-ASCII)] no\r\n");
    assert_eq!(
        r,
        Some(ImapResponse::Bad(ResponseCode::Badcharset(Some("UTF-8 US-ASCII)] no".to_string()))))
    );
    assert_eq!(ImapResponse::parse(b"M6 WHATEVER\r\n"), None);
    assert_eq!(ImapResponse::parse(b"nospace"), None);
}

#[test]
fn status_line_into_result() {
    assert!(ImapResponse::from("M1 OK done\r\n").into_result().is_ok());
    assert!(ImapResponse::from("* BYE logging out\r\n").into_result().is_ok());
    let e = ImapResponse::from("M2 NO mailbox missing\r\n").into_result().unwrap_err();
    assert_eq!(e.details, "mailbox missing");
    assert_eq!(e.summary, None);
    let e = ImapResponse::from("M2 NO [TRYCREATE] no such mailbox\r\n").into_result().unwrap_err();
    assert_eq!(e.summary, Some("IMAP NO Response.".to_string()));
    let e = ImapResponse::from("M2 BAD [READ-ONLY] x\r\n").into_result().unwrap_err();
    assert_eq!(e.summary, Some("IMAP BAD Response.".to_string()));
}

#[test]
fn required_responses_check() {
    let select = RequiredResponses::new(melib::response::SELECT_REQUIRED);
    assert!(select.check("* 172 EXISTS\r\n"));
    assert!(select.check("* FLAGS (\\Seen)\r\n"));
    assert!(!select.check("M1 OK done\r\n"));
    assert!(!select.check("* SEARCH 1\r\n"));
    let fetch = RequiredResponses::new(FETCH);
    assert!(fetch.check("* 12 FETCH (FLAGS (\\Seen))\r\n"));
    assert!(!fetch.check("* 12 EXISTS\r\n"));
    assert!(RequiredResponses::new(SEARCH).check("* SEARCH 1 2\r\n"));
    assert!(RequiredResponses::new(EXISTS | FLAGS).check("* 3 EXISTS\r\n"));
}

#[test]
fn line_iterator_keeps_crlf() {
    let mut it = ImapLineIterator::new(b"a\r\nbb\r\nc");
    assert_eq!(it.next(), Some(&b"a\r\n"[..]));
    assert_eq!(it.next(), Some(&b"bb\r\n"[..]));
    assert_eq!(it.next(), Some(&b"c"[..]));
    assert_eq!(it.next(), None);
}

#[test]
fn literal_reads_announced_length() {
    let s = b"{5}\r\nab)\r\nrest";
    assert_eq!(literal(s, 0), Some((5, 10)));
    assert_eq!(&s[5..10], b"ab)\r\n");
    assert_eq!(literal(b"{9}\r\nshort", 0), None);
    assert_eq!(literal(b"{x}\r\n", 0), None);
}

#[test]
fn fetch_literal_boundary() {
    let s: &[u8] = b"* 1 FETCH (UID 5 RFC822 {11}\r\nHello\r\nBye} FLAGS (\\Seen))\r\n";
    let (end, r) = uid_fetch_response(s, 0).unwrap();
    assert_eq!(end, s.len());
    assert_eq!(r.uid, 5);
    assert_eq!(r.message_sequence_number, 1);
    assert_eq!(r.body, Some(&b"Hello\r\nBye}"[..]));
    let (f, kw) = r.flags.unwrap();
    assert!(f.seen);
    assert!(kw.is_empty());
}

#[test]
fn fetch_responses_batch() {
    let s: &[u8] = b"* 1 FETCH (UID 10 FLAGS (\\Seen))\r\n* 2 FETCH (UID 11 FLAGS ())\r\n";
    let (end, v) = uid_fetch_responses(s).unwrap();
    assert_eq!(end, s.len());
    assert_eq!(v.len(), 2);
    assert_eq!(v[0].uid, 10);
    assert_eq!(v[1].uid, 11);
    assert!(v[0].flags.as_ref().unwrap().0.seen);
    assert!(!v[1].flags.as_ref().unwrap().0.seen);
    assert!(uid_fetch_responses(b"M1 OK\r\n").is_err());
    assert!(uid_fetch_response(b"* 1 FETCH (BOGUS 1)\r\n", 0).is_err());
}

#[test]
fn fetch_with_envelope_and_bodystructure() {
    let s: &[u8] = b"* 3 FETCH (UID 7 ENVELOPE (\"Wed, 17 Jul 1996 02:23:25 -0700\" \"Hi\" ((\"Terry Gray\" NIL \"gray\" \"cac.washington.edu\")) NIL NIL NIL NIL NIL \"<a@b>\" \"<c@d>\") BODYSTRUCTURE ((\"text\" \"plain\") \"mixed\" NIL))\r\n";
    let (_, r) = uid_fetch_response(s, 0).unwrap();
    let env = r.envelope.unwrap();
    assert_eq!(env.subject, b"Hi".to_vec());
    assert_eq!(env.message_id, b"<c@d>".to_vec());
    assert_eq!(env.in_reply_to, b"<a@b>".to_vec());
    assert_eq!(env.references, vec![b"<a@b>".to_vec()]);
    assert_eq!(env.from.len(), 1);
    assert_eq!(env.from[0].raw, b"Terry Gray <gray@cac.washington.edu>".to_vec());
    assert!(env.has_attachments);
}

#[test]
fn envelope_address_round_trip() {
    let s = b"\"Alice\" NIL \"alice\" \"example.com\"";
    let (a, end) = envelope_address(s, 0).unwrap();
    assert_eq!(end, s.len());
    assert_eq!(a.raw, b"Alice <alice@example.com>".to_vec());
    assert_eq!((a.display_name.offset, a.display_name.length), (0, 5));
    assert_eq!((a.address_spec.offset, a.address_spec.length), (7, 17));
    let raw = &a.raw[a.address_spec.offset..a.address_spec.offset + a.address_spec.length];
    assert_eq!(raw, b"alice@example.com");
    let list = b"((\"Alice\" NIL \"alice\" \"example.com\"))";
    let (v, end) = envelope_addresses(list, 0).unwrap();
    assert_eq!(end, list.len());
    assert_eq!(v.unwrap()[0].raw, b"Alice <alice@example.com>".to_vec());
}

#[test]
fn envelope_address_without_name() {
    let (a, _) = envelope_address(b"NIL NIL \"bob\" \"x.org\"", 0).unwrap();
    assert_eq!(a.raw, b"<bob@x.org>".to_vec());
    assert_eq!((a.address_spec.offset, a.address_spec.length), (1, 9));
    let (v, _) = envelope_addresses(b"NIL", 0).unwrap();
    assert!(v.is_none());
}

#[test]
fn envelope_rejects_missing_paren() {
    assert!(envelope(b"\"date\" NIL", 0).is_none());
}

#[test]
fn flags_list() {
    let s = b"\\Answered \\Seen $Junk Custom) rest";
    let (rest, f, kw) = flags(s, 0);
    assert_eq!(s[rest], b')');
    assert!(f.replied && f.seen);
    assert!(!f.flagged && !f.draft && !f.trashed);
    assert_eq!(kw, vec![b"$Junk".to_vec(), b"Custom".to_vec()]);
    let (rest, f, kw) = flags(b"", 0);
    assert_eq!(rest, 0);
    assert!(!f.seen);
    assert!(kw.is_empty());
}

#[test]
fn select_response_fields() {
    let s = b"* 172 EXISTS\r\n* 1 RECENT\r\n* OK [UNSEEN 12] Message 12 is first unseen\r\n* OK [UIDVALIDITY 3857529045] UIDs valid\r\n* OK [UIDNEXT 4392] Predicted next UID\r\n* FLAGS (\\Answered \\Flagged \\Deleted \\Seen \\Draft)\r\n* OK [PERMANENTFLAGS (\\Deleted \\Seen \\*)] Limited\r\nA142 OK [READ-WRITE] SELECT completed\r\n";
    let r = select_response(s).unwrap();
    assert_eq!(r.exists, 172);
    assert_eq!(r.recent, 1);
    assert_eq!(r.unseen, 12);
    assert_eq!(r.uidvalidity, 3857529045);
    assert_eq!(r.uidnext, 4392);
    assert!(r.flags.0.replied && r.flags.0.draft);
    assert!(r.permanentflags.0.trashed && r.permanentflags.0.seen);
    assert!(r.can_create_flags);
    assert!(!r.read_only);
    assert!(select_response(b"M1 NO no such mailbox\r\n").is_err());
    assert!(select_response(b"* OK x\r\n* abc EXISTS\r\n").is_err());
}

#[test]
fn bodystructure_mixed() {
    assert!(bodystructure_has_attachments(b"((\"text\") \"mixed\" NIL)"));
    assert!(bodystructure_has_attachments(b"(x \"MIXED\" y)"));
    assert!(!bodystructure_has_attachments(b"(\"text\" \"plain\")"));
}
