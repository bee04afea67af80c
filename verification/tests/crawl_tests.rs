use wikirip::crawl::{crawl_pages, SitePage};
use wikirip::mapper::str_to_path_buf;

fn page(suffix: &str, text: &str) -> SitePage {
    SitePage { suffix: suffix.to_string(), text: text.to_string() }
}

fn sorted(mut v: Vec<String>) -> Vec<String> {
    v.sort();
    v
}

#[test]
fn end_to_end_two_pages_one_resource() {
    // root http://example.test, start /wiki/Main_Page; Main_Page links
    // /wiki/A and shows /images/x.jpg; A links nothing further
    let site = vec![
        page(
            "/wiki/Main_Page",
            "<a href=\"/wiki/A\">A</a><img src=\"/images/x.jpg\">",
        ),
        page("/wiki/A", "nothing to see"),
    ];
    let out = crawl_pages(&site, "/wiki/Main_Page".to_string());
    assert_eq!(
        sorted(out.frontier.visited.clone()),
        vec!["/wiki/A".to_string(), "/wiki/Main_Page".to_string()]
    );
    assert!(out.frontier.pending.is_empty());
    assert_eq!(out.frontier.resources, vec!["/images/x.jpg".to_string()]);
    // the mirror files the run would write
    let mut paths: Vec<String> = out
        .frontier
        .visited
        .iter()
        .chain(out.frontier.resources.iter())
        .map(|s| str_to_path_buf(s))
        .collect();
    paths.sort();
    assert_eq!(
        paths,
        vec![
            "ripped/images/x.jpg".to_string(),
            "ripped/wiki/A".to_string(),
            "ripped/wiki/Main_Page".to_string(),
        ]
    );
}

#[test]
fn failed_fetch_is_isolated_and_the_crawl_completes() {
    // /wiki/A is not served: its fetch fails, the other links still run
    let site = vec![
        page("/wiki/Main_Page", "href=\"/wiki/A\" href=\"/wiki/B\""),
        page("/wiki/B", "href=\"/wiki/C\""),
        page("/wiki/C", "done"),
    ];
    let out = crawl_pages(&site, "/wiki/Main_Page".to_string());
    assert_eq!(
        sorted(out.frontier.visited.clone()),
        vec![
            "/wiki/A".to_string(),
            "/wiki/B".to_string(),
            "/wiki/C".to_string(),
            "/wiki/Main_Page".to_string(),
        ]
    );
    assert!(out.frontier.pending.is_empty());
}

#[test]
fn no_suffix_is_fetched_twice_despite_cycles() {
    let site = vec![
        page("/a", "href=\"/b\" href=\"/c\""),
        page("/b", "href=\"/a\" href=\"/c\""),
        page("/c", "href=\"/a\" href=\"/b\" href=\"/c\""),
    ];
    let out = crawl_pages(&site, "/a".to_string());
    let mut fetched = out.fetched.clone();
    fetched.sort();
    let before = fetched.len();
    fetched.dedup();
    assert_eq!(fetched.len(), before);
    assert_eq!(fetched, vec!["/a".to_string(), "/b".to_string(), "/c".to_string()]);
}

#[test]
fn rounds_are_bounded_by_visited_pages() {
    let site = vec![
        page("/a", "href=\"/b\""),
        page("/b", "href=\"/c\""),
        page("/c", "href=\"/a\""),
    ];
    let out = crawl_pages(&site, "/a".to_string());
    assert_eq!(out.frontier.visited.len(), 3);
    assert!(out.rounds <= 3);
}

#[test]
fn unreachable_pages_stay_unvisited() {
    let site = vec![
        page("/a", "no links here"),
        page("/island", "href=\"/a\""),
    ];
    let out = crawl_pages(&site, "/a".to_string());
    assert_eq!(out.frontier.visited, vec!["/a".to_string()]);
    assert!(out.frontier.pending.is_empty());
    assert!(out.frontier.resources.is_empty());
}

#[test]
fn resources_come_only_from_visited_served_pages() {
    let site = vec![
        page("/a", "src=\"/one.png\" href=\"/dead\""),
        page("/unreached", "src=\"/never.png\""),
    ];
    let out = crawl_pages(&site, "/a".to_string());
    assert_eq!(out.frontier.resources, vec!["/one.png".to_string()]);
    assert_eq!(
        sorted(out.frontier.visited.clone()),
        vec!["/a".to_string(), "/dead".to_string()]
    );
}

#[test]
fn start_page_missing_still_terminates() {
    let site = vec![page("/present", "href=\"/also\"")];
    let out = crawl_pages(&site, "/absent".to_string());
    assert_eq!(out.frontier.visited, vec!["/absent".to_string()]);
    assert!(out.frontier.pending.is_empty());
    assert_eq!(out.rounds, 1);
}
