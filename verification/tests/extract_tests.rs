use wikirip::extract::{extract_links, extract_resources, scan_candidates};

fn chars(s: &str) -> Vec<char> {
    s.chars().collect()
}

fn strings(v: Vec<Vec<char>>) -> Vec<String> {
    v.into_iter().map(|c| c.into_iter().collect()).collect()
}

#[test]
fn simple_link_extracted() {
    let text = chars("<a href=\"/wiki/A\">A</a>");
    assert_eq!(strings(extract_links(&text)), vec!["/wiki/A".to_string()]);
}

#[test]
fn unterminated_quote_yields_nothing() {
    // the closing quote never comes: the occurrence is discarded, not an error
    let text = chars("<a href=\"/wiki/A");
    assert_eq!(strings(extract_links(&text)), Vec::<String>::new());
}

#[test]
fn marker_at_end_of_text_yields_nothing() {
    let text = chars("trailing href=");
    assert_eq!(strings(extract_links(&text)), Vec::<String>::new());
    let text2 = chars("trailing href=\"");
    assert_eq!(strings(extract_links(&text2)), Vec::<String>::new());
}

#[test]
fn empty_text_yields_nothing() {
    let text = chars("");
    assert_eq!(strings(extract_links(&text)), Vec::<String>::new());
    assert_eq!(strings(extract_resources(&text)), Vec::<String>::new());
}

#[test]
fn link_filter_keeps_only_plain_site_paths() {
    let text = chars(
        "href=\"/wiki/Keep\" href=\"http://other.test/x\" \
         href=\"/wiki/Q?query=1\" href=\"/wiki/F#frag\" href=\"relative/path\" \
         href=\"mailto:someone\" href=\"/wiki/Also_kept\"",
    );
    assert_eq!(
        strings(extract_links(&text)),
        vec!["/wiki/Keep".to_string(), "/wiki/Also_kept".to_string()]
    );
}

#[test]
fn resource_filter_keeps_only_slash_led_image_paths() {
    let text = chars(
        "src=\"/images/a.jpg\" src=\"/images/b.png\" src=\"/images/c.jpeg\" \
         src=\"/images/d.gif\" src=\"/images/e.svg\" src=\"/images/f.bmp\" \
         src=\"/images/g.JPG\" src=\"images/h.png\" src=\"http://other.test/i.png\"",
    );
    assert_eq!(
        strings(extract_resources(&text)),
        vec![
            "/images/a.jpg".to_string(),
            "/images/b.png".to_string(),
            "/images/c.jpeg".to_string(),
            "/images/d.gif".to_string(),
            "/images/e.svg".to_string(),
        ]
    );
}

#[test]
fn resource_extension_is_case_sensitive_and_literal() {
    let text = chars("src=\"/x.Png\" src=\"/y.pngx\" src=\"/z.png\"");
    assert_eq!(strings(extract_resources(&text)), vec!["/z.png".to_string()]);
}

#[test]
fn one_character_after_marker_is_skipped_as_opening_quote() {
    // the scan skips exactly one character after the marker, whatever it is
    let text = chars("href=x/a\"");
    assert_eq!(strings(extract_links(&text)), vec!["/a".to_string()]);
}

#[test]
fn empty_value_is_dropped_by_the_filter() {
    let text = chars("href=\"\" href=\"/real\"");
    let links = strings(extract_links(&text));
    assert_eq!(links, vec!["/real".to_string()]);
}

#[test]
fn duplicates_are_kept_in_extraction_order() {
    let text = chars("href=\"/a\" href=\"/b\" href=\"/a\"");
    assert_eq!(
        strings(extract_links(&text)),
        vec!["/a".to_string(), "/b".to_string(), "/a".to_string()]
    );
}

#[test]
fn scan_candidates_reports_every_occurrence() {
    let text = chars("src=\"one\" and src=\"two\"");
    let marker = chars("src=");
    assert_eq!(
        strings(scan_candidates(&text, &marker)),
        vec!["one".to_string(), "two".to_string()]
    );
}

#[test]
fn links_and_resources_scan_their_own_markers() {
    let text = chars("href=\"/page\" src=\"/img.gif\"");
    assert_eq!(strings(extract_links(&text)), vec!["/page".to_string()]);
    assert_eq!(strings(extract_resources(&text)), vec!["/img.gif".to_string()]);
}
