use unitypackage_extractor::paths::{
    base_dir_name, destination, has_package_suffix, join, parent, scratch_dir_name, split_last,
};

#[test]
fn package_names_end_with_the_suffix() {
    assert!(has_package_suffix("pkg.unitypackage"));
    assert!(has_package_suffix("dir/sub/My Pack.unitypackage"));
    assert!(has_package_suffix(".unitypackage"));
}

#[test]
fn other_names_are_no_package_names() {
    assert!(!has_package_suffix("pkg.zip"));
    assert!(!has_package_suffix("pkg.unitypackage.bak"));
    assert!(!has_package_suffix("pkg.UnityPackage"));
    assert!(!has_package_suffix("unitypackage"));
    assert!(!has_package_suffix(""));
}

#[test]
fn base_dir_is_the_name_without_the_suffix() {
    assert_eq!(base_dir_name("pkg.unitypackage"), Some("pkg".to_string()));
    assert_eq!(base_dir_name("a/b/été.unitypackage"), Some("a/b/été".to_string()));
    assert_eq!(base_dir_name(".unitypackage"), Some(String::new()));
}

#[test]
fn base_dir_loses_the_suffix_once() {
    assert_eq!(
        base_dir_name("a.unitypackage.unitypackage"),
        Some("a.unitypackage".to_string())
    );
    assert_eq!(
        base_dir_name("x.unitypackage/y.unitypackage"),
        Some("x.unitypackage/y".to_string())
    );
}

#[test]
fn no_base_dir_without_the_suffix() {
    assert_eq!(base_dir_name("pkg.tar.gz"), None);
    assert_eq!(base_dir_name(""), None);
}

#[test]
fn scratch_dir_is_the_base_dir_with_its_suffix() {
    assert_eq!(scratch_dir_name("pkg"), "pkg_temp");
    assert_eq!(scratch_dir_name(""), "_temp");
    assert_eq!(scratch_dir_name("a/b"), "a/b_temp");
}

#[test]
fn join_puts_a_separator_between() {
    assert_eq!(join("pkg", "Textures/rock.png"), "pkg/Textures/rock.png");
    assert_eq!(join("pkg_temp", "abc/asset"), "pkg_temp/abc/asset");
}

#[test]
fn join_adds_no_second_separator() {
    assert_eq!(join("pkg/", "a"), "pkg/a");
    assert_eq!(join("/", "a"), "/a");
}

#[test]
fn join_onto_nothing_is_the_relative_path() {
    assert_eq!(join("", "a/b"), "a/b");
    assert_eq!(join("", ""), "");
}

#[test]
fn join_keeps_the_result_under_the_base() {
    assert_eq!(join("pkg", "/etc/x"), "pkg//etc/x");
    assert_eq!(join("pkg", ""), "pkg/");
}

#[test]
fn split_last_divides_at_the_last_separator() {
    assert_eq!(split_last("abc/pathname"), ("abc".to_string(), "pathname".to_string()));
    assert_eq!(split_last("a/b/c"), ("a/b".to_string(), "c".to_string()));
    assert_eq!(split_last("./abc/asset"), ("./abc".to_string(), "asset".to_string()));
}

#[test]
fn split_last_without_a_separator() {
    assert_eq!(split_last("asset"), (String::new(), "asset".to_string()));
    assert_eq!(split_last(""), (String::new(), String::new()));
}

#[test]
fn split_last_at_the_ends() {
    assert_eq!(split_last("abc/"), ("abc".to_string(), String::new()));
    assert_eq!(split_last("/asset"), (String::new(), "asset".to_string()));
    assert_eq!(split_last("/"), (String::new(), String::new()));
    assert_eq!(split_last("é/ü"), ("é".to_string(), "ü".to_string()));
}

#[test]
fn parent_is_what_precedes_the_last_separator() {
    assert_eq!(parent("pkg/Textures/rock.png"), "pkg/Textures");
    assert_eq!(parent("pkg_temp/abc/asset"), "pkg_temp/abc");
    assert_eq!(parent("rock.png"), "");
    assert_eq!(parent("pkg/"), "pkg");
    assert_eq!(parent(""), "");
}

#[test]
fn destination_drops_the_asset_root() {
    assert_eq!(destination("pkg", "Assets/Textures/rock.png"), "pkg/Textures/rock.png");
}

#[test]
fn destination_without_asset_root_is_unchanged() {
    assert_eq!(destination("pkg", "Scripts/util.cs"), "pkg/Scripts/util.cs");
    assert_eq!(destination("pkg", "Packages/Assets/a"), "pkg/Packages/Assets/a");
}

#[test]
fn destination_drops_the_asset_root_once() {
    assert_eq!(destination("pkg", "Assets/Assets/a.txt"), "pkg/Assets/a.txt");
    assert_eq!(destination("", "Assets/a.txt"), "a.txt");
    assert_eq!(destination("pkg", "Assets/"), "pkg/");
}
