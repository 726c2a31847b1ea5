use leaf::watcher::{batch_is_relevant, ChangeKind, PendingEvents, DEBOUNCE_MS};

fn paths(v: &[&str]) -> Vec<String> {
    v.iter().map(|s| s.to_string()).collect()
}

#[test]
fn events_are_gathered_once_each() {
    let mut p = PendingEvents::new();
    assert!(p.is_empty());
    assert!(!p.should_flush(10_000));
    p.record(ChangeKind::Create, &paths(&["/v/a.html", "/v/b.html", "/v/a.html"]), 100);
    p.record(ChangeKind::Create, &paths(&["/v/b.html"]), 200);
    p.record(ChangeKind::Modify, &paths(&["/v/a.html"]), 300);
    p.record(ChangeKind::Other, &paths(&["/v/c.html"]), 400);
    assert_eq!(p.added, paths(&["/v/a.html", "/v/b.html"]));
    assert_eq!(p.modified, paths(&["/v/a.html"]));
    assert!(p.removed.is_empty());
    assert_eq!(p.last_event, Some(400));
    assert!(!p.should_flush(400 + DEBOUNCE_MS - 1));
    assert!(p.should_flush(400 + DEBOUNCE_MS));
    let (a, m, r) = p.take();
    assert_eq!((a.len(), m.len(), r.len()), (2, 1, 0));
    assert!(p.is_empty());
    assert_eq!(p.last_event, Some(400));
}

#[test]
fn relevance_of_a_batch() {
    let none: Vec<String> = Vec::new();
    assert!(batch_is_relevant(&paths(&["/v/a.HTML"]), &vec![false], &none, &none, &vec![]));
    assert!(!batch_is_relevant(&paths(&["/v/a.css"]), &vec![false], &none, &none, &vec![]));
    assert!(batch_is_relevant(&paths(&["/v/dir"]), &vec![true], &none, &none, &vec![]));
    assert!(!batch_is_relevant(&none, &vec![], &paths(&["/v/dir"]), &none, &vec![]));
    assert!(batch_is_relevant(&none, &vec![], &paths(&["/v/x.htm"]), &none, &vec![]));
    assert!(batch_is_relevant(&none, &vec![], &none, &paths(&["/v/old"]), &vec![true]));
    assert!(!batch_is_relevant(&none, &vec![], &none, &paths(&["/v/old.png"]), &vec![false]));
}

#[test]
fn batches_come_out_after_a_quiet_spell() {
    let mut p = PendingEvents::new();
    assert!(p.take_due(10_000).is_none());
    p.record(ChangeKind::Other, &paths(&["/v/x"]), 100);
    assert!(p.take_due(100 + DEBOUNCE_MS).is_none());
    p.record(ChangeKind::Remove, &paths(&["/v/x.html"]), 1_000);
    assert!(p.take_due(1_000 + DEBOUNCE_MS - 1).is_none());
    assert_eq!(p.removed, paths(&["/v/x.html"]));
    let due = p.take_due(1_000 + DEBOUNCE_MS);
    assert_eq!(due, Some((Vec::new(), Vec::new(), paths(&["/v/x.html"]))));
    assert!(p.is_empty());
    assert!(p.take_due(5_000).is_none());
}
