use crawl_engine::frontier::{Frontier, FrontierEntry, Taken};
use crawl_engine::url::Url;

fn url(text: &[u8]) -> Url {
    Url::parse(text).ok().expect("a URL")
}

fn entry(text: &[u8]) -> FrontierEntry {
    FrontierEntry { url: url(text), depth: 0, parent: None }
}

fn child(text: &[u8], parent: &[u8], depth: u32) -> FrontierEntry {
    FrontierEntry { url: url(text), depth, parent: Some(url(parent)) }
}

fn taken_url(taken: Taken) -> Option<Vec<u8>> {
    match taken {
        Taken::Entry(e) => Some(e.url.to_bytes()),
        _ => None,
    }
}

#[test]
fn second_offer_is_a_no_op() {
    let mut f = Frontier::new();
    assert!(f.offer(entry(b"http://h/a")));
    assert_eq!(f.seen_count(), 1);
    assert_eq!(f.waiting(), 1);
    assert!(!f.offer(entry(b"http://h/a")));
    assert!(!f.offer(child(b"HTTP://H/a#x", b"http://h/", 3)));
    assert_eq!(f.seen_count(), 1);
    assert_eq!(f.waiting(), 1);
    assert!(f.offer(entry(b"http://h/b")));
    assert_eq!(f.seen_count(), 2);
    assert_eq!(f.waiting(), 2);
}

#[test]
fn a_url_that_was_taken_is_not_accepted_again() {
    let mut f = Frontier::new();
    assert!(f.offer(entry(b"http://h/a")));
    assert_eq!(taken_url(f.take()), Some(b"http://h/a".to_vec()));
    assert!(!f.offer(entry(b"http://h/a")));
    assert_eq!(f.waiting(), 0);
    assert_eq!(f.seen_count(), 1);
    assert!(f.has_seen(&url(b"http://h/a")));
    assert!(!f.has_seen(&url(b"http://h/b")));
}

#[test]
fn urls_come_out_first_in_first_out() {
    let mut f = Frontier::new();
    f.offer(entry(b"http://h/1"));
    f.offer(entry(b"http://h/2"));
    f.offer(entry(b"http://h/3"));
    assert_eq!(f.peek().map(|e| e.url.to_bytes()), Some(b"http://h/1".to_vec()));
    assert_eq!(taken_url(f.take()), Some(b"http://h/1".to_vec()));
    f.offer(entry(b"http://h/4"));
    assert_eq!(taken_url(f.take()), Some(b"http://h/2".to_vec()));
    assert_eq!(taken_url(f.take()), Some(b"http://h/3".to_vec()));
    assert_eq!(taken_url(f.take()), Some(b"http://h/4".to_vec()));
    assert_eq!(f.in_flight(), 4);
    assert!(f.peek().is_none());
}

#[test]
fn take_keeps_depth_and_parent() {
    let mut f = Frontier::new();
    f.offer(child(b"http://h/a", b"http://h/", 2));
    match f.take() {
        Taken::Entry(e) => {
            assert_eq!(e.depth, 2);
            assert_eq!(e.parent.map(|p| p.to_bytes()), Some(b"http://h/".to_vec()));
        }
        _ => panic!("an entry was waiting"),
    }
}

#[test]
fn an_empty_frontier_with_work_under_way_asks_to_wait() {
    let mut f = Frontier::new();
    f.offer(entry(b"http://h/1"));
    assert!(matches!(f.take(), Taken::Entry(_)));
    assert!(matches!(f.take(), Taken::Pending));
    assert!(!f.is_closed());
    f.offer(entry(b"http://h/2"));
    f.finish();
    assert!(!f.is_closed());
    assert!(matches!(f.take(), Taken::Entry(_)));
    f.finish();
    assert!(f.is_closed());
    assert!(matches!(f.take(), Taken::Drained));
}

#[test]
fn a_frontier_that_never_held_anything_drains_at_once() {
    let mut f = Frontier::new();
    assert!(!f.is_closed());
    assert!(matches!(f.take(), Taken::Drained));
    assert!(f.is_closed());
}

#[test]
fn finish_without_anything_under_way_changes_nothing() {
    let mut f = Frontier::new();
    f.offer(entry(b"http://h/1"));
    f.finish();
    assert_eq!(f.in_flight(), 0);
    assert!(!f.is_closed());
    assert_eq!(f.waiting(), 1);
}

#[test]
fn a_closed_frontier_accepts_and_hands_out_nothing() {
    let mut f = Frontier::new();
    f.offer(entry(b"http://h/1"));
    f.offer(entry(b"http://h/2"));
    assert!(matches!(f.take(), Taken::Entry(_)));
    f.close();
    assert!(f.is_closed());
    assert!(matches!(f.take(), Taken::Drained));
    assert!(!f.offer(entry(b"http://h/3")));
    assert!(!f.note(&url(b"http://h/4")));
    assert_eq!(f.seen_count(), 2);
    assert_eq!(f.waiting(), 1);
    f.finish();
    assert_eq!(f.in_flight(), 0);
    assert!(f.is_closed());
}

#[test]
fn a_noted_url_is_seen_and_never_handed_out() {
    let mut f = Frontier::new();
    assert!(f.note(&url(b"http://h/skipped")));
    assert!(!f.note(&url(b"http://h/skipped")));
    assert!(!f.offer(entry(b"http://h/skipped")));
    assert_eq!(f.seen_count(), 1);
    assert_eq!(f.waiting(), 0);
    assert!(matches!(f.take(), Taken::Drained));
}
