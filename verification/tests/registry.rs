use grpc::registry::Registry;

#[test]
fn later_registration_wins() {
    let mut r: Registry<u32> = Registry::new();
    r.insert("dns".to_string(), 1);
    r.insert("unix".to_string(), 2);
    r.insert("dns".to_string(), 3);
    assert_eq!(r.get("dns"), Some(&3));
    assert_eq!(r.get("unix"), Some(&2));
    assert_eq!(r.get("xds"), None);
}

#[test]
fn schemes_are_lower_case() {
    let mut r: Registry<&'static str> = Registry::new();
    assert_eq!(
        r.try_add_builder("DNS", "x"),
        Err("Scheme must not contain uppercase characters: DNS".to_string())
    );
    assert_eq!(r.get_scheme("dns"), None);
    assert_eq!(r.try_add_builder("dns", "resolver"), Ok(()));
    assert_eq!(r.get_scheme("DNS"), Some(&"resolver"));
    assert_eq!(r.get_scheme("dns"), Some(&"resolver"));
}
