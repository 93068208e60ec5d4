use nimby_graph::station::{default_platforms, ensure_platforms_up_to, get_or_add_platform, Platform};

#[test]
fn test_default_platforms() {
    let platforms = default_platforms();
    assert_eq!(platforms.len(), 2);
    assert_eq!(platforms[0].name, "1");
    assert_eq!(platforms[1].name, "2");
}

#[test]
fn test_platform_creation() {
    let platform = Platform { name: "Platform 1".to_string() };
    assert_eq!(platform.name, "Platform 1");
}

#[test]
fn platforms_are_numbered_up_to_request() {
    let mut platforms = default_platforms();
    assert_eq!(ensure_platforms_up_to(&mut platforms, 4), 3);
    let names: Vec<&str> = platforms.iter().map(|p| p.name.as_str()).collect();
    assert_eq!(names, vec!["1", "2", "3", "4"]);
    assert_eq!(ensure_platforms_up_to(&mut platforms, 0), 0);
    assert_eq!(platforms.len(), 4);
}

#[test]
fn named_platforms_are_found_or_added() {
    let mut platforms = default_platforms();
    assert_eq!(get_or_add_platform(&mut platforms, "2"), 1);
    assert_eq!(get_or_add_platform(&mut platforms, "East"), 2);
    assert_eq!(get_or_add_platform(&mut platforms, "East"), 2);
    assert_eq!(get_or_add_platform(&mut platforms, "3"), 2);
    assert_eq!(platforms.len(), 3);
}
