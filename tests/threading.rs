use melib::envelope::Envelope;
use melib::thread::{build_threads, SortField, SortOrder, Threads};

fn mail(id: &str, refs: &[&str], subject: &str, date: u64) -> Envelope {
    let mut e = Envelope::new(0);
    e.message_id = id.as_bytes().to_vec();
    e.references = refs.iter().map(|r| r.as_bytes().to_vec()).collect();
    e.subject = subject.as_bytes().to_vec();
    e.date = date;
    e
}

fn walk_has_cycle(t: &Threads) -> bool {
    let c = t.containers();
    let n = c.len();
    for start in 0..n {
        // depth-first over first-child / next-sibling links, bounded by n steps per path
        let mut stack = vec![(start, 0usize)];
        while let Some((v, depth)) = stack.pop() {
            if depth > n {
                return true;
            }
            for next in [c[v].first_child(), c[v].next_sibling()].iter().flatten() {
                if *next == start {
                    return true;
                }
                stack.push((*next, depth + 1));
            }
        }
    }
    false
}

fn root_ids(t: &Threads) -> Vec<usize> {
    let mut it = t.root_set_iter();
    let mut v = Vec::new();
    while let Some((id, _, _)) = it.next() {
        v.push(id);
    }
    v
}

#[test]
fn reply_threads_under_parent() {
    let mut coll = vec![
        mail("<1@x>", &[], "Plan", 10),
        mail("<2@x>", &["<1@x>"], "Re: Plan", 20),
    ];
    let t = build_threads(&mut coll, None);
    assert_eq!(t.root_set().len(), 1);
    let root = t.root_set()[0];
    assert_eq!(t.containers()[root].message(), Some(0));
    let child = t.containers()[root].first_child().unwrap();
    assert_eq!(t.containers()[child].message(), Some(1));
    assert_eq!(t.containers()[child].parent(), Some(root));
    assert!(!t.containers()[child].show_subject());
    assert_eq!(t.containers()[child].indentation(), 1);
    assert_eq!(t.containers()[root].date(), 20);
    assert_eq!(t.root_len(), 1);
    let mut it = t.thread_iter();
    assert_eq!(it.next(), Some(root));
    assert_eq!(it.next(), Some(child));
    assert_eq!(it.next(), None);
    assert_eq!(t.threaded_collection().len(), 2);
    assert_eq!(t.thread_to_mail(0), 0);
}

#[test]
fn root_promotion_of_missing_parent() {
    // M2 refers to M1, which never arrives: M2 itself heads the thread
    let mut coll = vec![mail("<2@x>", &["<1@x>"], "Re: Plan", 20)];
    let t = build_threads(&mut coll, None);
    assert_eq!(t.root_set().len(), 1);
    let root = t.root_set()[0];
    assert_eq!(t.containers()[root].message(), Some(0));
    for c in t.containers() {
        if !c.has_message() && c.has_children() {
            assert!(!t.root_set().contains(&c.first_child().unwrap()) || c.first_child() == Some(root));
            assert!(!t.root_set().iter().any(|r| t.containers()[*r].message().is_none()));
        }
    }
}

#[test]
fn late_parent_fills_placeholder() {
    let mut coll = vec![
        mail("<2@x>", &["<1@x>"], "Re: Plan", 20),
        mail("<1@x>", &[], "Plan", 10),
    ];
    let t = build_threads(&mut coll, None);
    assert_eq!(t.root_set().len(), 1);
    let root = t.root_set()[0];
    assert_eq!(t.containers()[root].message(), Some(1));
    let child = t.containers()[root].first_child().unwrap();
    assert_eq!(t.containers()[child].message(), Some(0));
}

#[test]
fn cyclic_references_make_no_cycle() {
    let mut coll = vec![
        mail("<a@x>", &["<b@x>"], "A", 1),
        mail("<b@x>", &["<a@x>"], "B", 2),
        mail("<c@x>", &["<c@x>"], "C", 3),
    ];
    let t = build_threads(&mut coll, None);
    assert!(!walk_has_cycle(&t));
}

#[test]
fn random_reference_graphs_have_no_cycle() {
    let mut seed: u64 = 12345;
    for _round in 0..30 {
        let n = 12;
        let mut coll = Vec::new();
        for i in 0..n {
            seed = seed.wrapping_mul(6364136223846793005).wrapping_add(1442695040888963407);
            let r = (seed >> 33) % (n as u64 + 3);
            let id = format!("<{}@x>", i);
            let rf = format!("<{}@x>", r);
            coll.push(mail(&id, &[rf.as_str()], "s", seed % 100));
        }
        let t = build_threads(&mut coll, None);
        assert!(!walk_has_cycle(&t));
    }
}

#[test]
fn duplicate_message_id_is_left_out() {
    let mut coll = vec![mail("<1@x>", &[], "A", 1), mail("<1@x>", &[], "A again", 2)];
    let t = build_threads(&mut coll, None);
    let with_message = t.containers().iter().filter(|c| c.has_message()).count();
    assert_eq!(with_message, 1);
}

#[test]
fn roots_newest_first() {
    let mut coll = vec![
        mail("<1@x>", &[], "old", 1),
        mail("<2@x>", &[], "new", 50),
        mail("<3@x>", &[], "mid", 20),
    ];
    let t = build_threads(&mut coll, None);
    let dates: Vec<u64> = t.root_set().iter().map(|r| t.containers()[*r].date()).collect();
    assert_eq!(dates, vec![50, 20, 1]);
    let dates: Vec<u64> = root_ids(&t).iter().map(|r| t.containers()[*r].date()).collect();
    assert_eq!(dates, vec![50, 20, 1]);
}

#[test]
fn sort_twice_is_idempotent() {
    let mut coll = vec![
        mail("<1@x>", &[], "banana", 1),
        mail("<2@x>", &[], "apple", 50),
        mail("<3@x>", &[], "cherry", 20),
    ];
    let mut t = build_threads(&mut coll, None);
    let key = (SortField::Subject, SortOrder::Asc);
    let sub = (SortField::Date, SortOrder::Desc);
    t.sort_by(key, sub, &coll);
    let first = root_ids(&t);
    let subjects: Vec<Vec<u8>> = first
        .iter()
        .map(|r| coll[t.containers()[*r].message().unwrap()].subject.clone())
        .collect();
    assert_eq!(subjects, vec![b"apple".to_vec(), b"banana".to_vec(), b"cherry".to_vec()]);
    let containers_before = t.containers().clone();
    t.sort_by(key, sub, &coll);
    assert_eq!(root_ids(&t), first);
    assert_eq!(t.containers(), &containers_before);
    t.sort_by((SortField::Date, SortOrder::Asc), sub, &coll);
    let dates: Vec<u64> = root_ids(&t).iter().map(|r| t.containers()[*r].date()).collect();
    assert_eq!(dates, vec![1, 20, 50]);
}

#[test]
fn sent_reply_joins_thread() {
    let mut coll = vec![mail("<1@x>", &[], "Plan", 10)];
    let mut reply = mail("<9@me>", &[], "Re: Plan", 30);
    reply.in_reply_to = b"<1@x>".to_vec();
    let sent = vec![reply, mail("<8@me>", &[], "unrelated", 5)];
    let t = build_threads(&mut coll, Some(&sent));
    assert_eq!(coll.len(), 2);
    assert_eq!(t.root_set().len(), 1);
    let root = t.root_set()[0];
    let child = t.containers()[root].first_child().unwrap();
    assert_eq!(t.containers()[child].message(), Some(1));
    assert_eq!(t.containers()[root].date(), 30);
}

#[test]
fn sort_settings_parse() {
    assert_eq!(SortField::from_str(" subj "), Ok(SortField::Subject));
    assert_eq!(SortField::from_str("d"), Ok(SortField::Date));
    assert_eq!(SortField::from_str("size"), Err(()));
    assert_eq!(SortOrder::from_str("asc"), Ok(SortOrder::Asc));
    assert_eq!(SortOrder::from_str("desc\n"), Ok(SortOrder::Desc));
    assert_eq!(SortOrder::from_str("up"), Err(()));
}
