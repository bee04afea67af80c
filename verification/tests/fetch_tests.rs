use wikirip::fetch::prepare_fetch;
use wikirip::text::{chars_to_string, string_chars};

#[test]
fn plan_resolves_suffix_against_root() {
    let root = reqwest::Url::parse("http://example.test").unwrap();
    let plan = prepare_fetch(&root, "/wiki/Main_Page");
    assert_eq!(plan.url, Some("http://example.test/wiki/Main_Page".to_string()));
    assert_eq!(plan.path, "ripped/wiki/Main_Page".to_string());
}

#[test]
fn plan_replaces_the_root_path() {
    let root = reqwest::Url::parse("http://example.test/deep/path").unwrap();
    let plan = prepare_fetch(&root, "/images/x.jpg");
    assert_eq!(plan.url, Some("http://example.test/images/x.jpg".to_string()));
    assert_eq!(plan.path, "ripped/images/x.jpg".to_string());
}

#[test]
fn unresolvable_suffix_still_gets_a_path() {
    // a cannot-be-a-base root makes resolution fail; the failure is
    // isolated: the plan simply carries no URL
    let root = reqwest::Url::parse("mailto:someone@example.test").unwrap();
    let plan = prepare_fetch(&root, "/wiki/A");
    assert_eq!(plan.url, None);
    assert_eq!(plan.path, "ripped/wiki/A".to_string());
}

#[test]
fn round_trip_between_string_and_characters() {
    let v = string_chars("wiki/Main_Page?x=1");
    assert_eq!(v, "wiki/Main_Page?x=1".chars().collect::<Vec<char>>());
    assert_eq!(chars_to_string(&v), "wiki/Main_Page?x=1".to_string());
}
