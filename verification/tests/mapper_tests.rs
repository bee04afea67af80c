use wikirip::mapper::str_to_path_buf;

#[test]
fn slash_led_suffix_maps_under_the_mirror_root() {
    assert_eq!(str_to_path_buf("/wiki/Main_Page"), "ripped/wiki/Main_Page".to_string());
}

#[test]
fn suffix_without_slash_gets_its_own_separator() {
    assert_eq!(str_to_path_buf("orphan"), "ripped/orphan".to_string());
}

#[test]
fn empty_suffix_maps_to_the_root_with_separator() {
    assert_eq!(str_to_path_buf(""), "ripped/".to_string());
}

#[test]
fn distinct_slash_led_suffixes_map_to_distinct_paths() {
    let suffixes = ["/wiki/A", "/wiki/B", "/wiki/A/B", "/images/x.jpg", "/"];
    for (i, a) in suffixes.iter().enumerate() {
        for (j, b) in suffixes.iter().enumerate() {
            if i != j {
                assert_ne!(str_to_path_buf(a), str_to_path_buf(b));
            }
        }
    }
}
