use wikirip::crawl::record_page;
use wikirip::frontier::Frontier;

fn sorted(mut v: Vec<String>) -> Vec<String> {
    v.sort();
    v
}

#[test]
fn seed_then_snapshot() {
    let mut f = Frontier::new();
    f.seed("/wiki/Main_Page".to_string());
    assert_eq!(f.snapshot_pending(), vec!["/wiki/Main_Page".to_string()]);
    assert!(f.snapshot_resources().is_empty());
}

#[test]
fn mark_visited_moves_pending_to_visited() {
    let mut f = Frontier::new();
    f.seed("/a".to_string());
    f.mark_visited(&"/a".to_string());
    assert!(f.snapshot_pending().is_empty());
    // marking again is idempotent
    f.mark_visited(&"/a".to_string());
    assert!(f.snapshot_pending().is_empty());
}

#[test]
fn enqueue_links_dedupes() {
    let mut f = Frontier::new();
    f.enqueue_links(&vec!["/a".to_string(), "/b".to_string(), "/a".to_string()]);
    f.enqueue_links(&vec!["/b".to_string(), "/c".to_string()]);
    assert_eq!(
        sorted(f.snapshot_pending()),
        vec!["/a".to_string(), "/b".to_string(), "/c".to_string()]
    );
}

#[test]
fn enqueue_resources_dedupes() {
    let mut f = Frontier::new();
    f.enqueue_resources(&vec!["/x.png".to_string(), "/x.png".to_string()]);
    f.enqueue_resources(&vec!["/y.gif".to_string()]);
    assert_eq!(
        sorted(f.snapshot_resources()),
        vec!["/x.png".to_string(), "/y.gif".to_string()]
    );
}

#[test]
fn record_page_filters_links_against_visited() {
    let mut f = Frontier::new();
    f.seed("/a".to_string());
    // page /a links to itself and to /b: only /b is new
    let text = "href=\"/a\" href=\"/b\"".to_string();
    record_page(&mut f, &"/a".to_string(), Some(&text));
    assert_eq!(f.snapshot_pending(), vec!["/b".to_string()]);
}

#[test]
fn record_page_failure_only_marks_visited() {
    let mut f = Frontier::new();
    f.seed("/gone".to_string());
    record_page(&mut f, &"/gone".to_string(), None);
    assert!(f.snapshot_pending().is_empty());
    assert!(f.snapshot_resources().is_empty());
}

#[test]
fn record_page_collects_resources() {
    let mut f = Frontier::new();
    f.seed("/a".to_string());
    let text = "src=\"/images/x.jpg\" src=\"/images/x.jpg\" src=\"/skip.txt\"".to_string();
    record_page(&mut f, &"/a".to_string(), Some(&text));
    assert_eq!(f.snapshot_resources(), vec!["/images/x.jpg".to_string()]);
}
