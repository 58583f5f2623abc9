use chunking::text::{folder_name, is_app_code, package_name, package_of_matches};

#[test]
fn app_code_lacks_the_vendor_marker() {
    assert!(is_app_code("src/index.js"));
    assert!(is_app_code("project/node_modules.js"));
    assert!(!is_app_code("project/node_modules/react/index.js"));
    assert!(!is_app_code("/node_modules/"));
    assert!(is_app_code(""));
}

#[test]
fn package_name_of_plain_and_scoped_packages() {
    assert_eq!(package_name("project/node_modules/react/index.js"), "react");
    assert_eq!(package_name("project/node_modules/@next/font/dist/a.js"), "@next/font");
    assert_eq!(package_name("project/node_modules/a/node_modules/b/c.js"), "b");
    assert_eq!(package_name("src/index.js"), "");
    assert_eq!(package_name("project/node_modules/"), "");
}

#[test]
fn folder_name_walks_one_segment() {
    assert_eq!(folder_name("src/app/x.js", 0), ("src/".to_string(), Some(4)));
    assert_eq!(folder_name("src/app/x.js", 4), ("src/app/".to_string(), Some(8)));
    assert_eq!(folder_name("src/app/x.js", 8), ("src/app/x.js".to_string(), None));
    assert_eq!(folder_name("/a", 0), ("/".to_string(), Some(1)));
    assert_eq!(folder_name("", 0), ("".to_string(), None));
    assert_eq!(folder_name("\u{e9}/a", 0), ("\u{e9}/".to_string(), Some(3)));
    assert_eq!(folder_name("\u{e9}/a", 3), ("\u{e9}/a".to_string(), None));
}

#[test]
fn package_of_matches_takes_the_last_without_marker() {
    let ms = vec!["/node_modules/a".to_string(), "/node_modules/@s/b".to_string()];
    assert_eq!(package_of_matches(&ms), "@s/b");
    assert_eq!(package_of_matches(&Vec::new()), "");
    assert_eq!(package_of_matches(&vec!["/node_modules/".to_string()]), "");
}
