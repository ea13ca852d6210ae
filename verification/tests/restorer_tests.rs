use std::collections::BTreeMap;
use unitypackage_extractor::group::AssetGroup;
use unitypackage_extractor::restorer::{CopyJob, Directive, InvalidPackage, Restorer};

type Files = BTreeMap<String, Vec<u8>>;

/// Shows `entries` to `run`, staging payloads in `scratch` as a caller would
/// on disk.
fn feed(run: &mut Restorer, scratch: &mut Files, entries: &[(&str, &[u8])]) {
    for (path, payload) in entries {
        match run.observe(path) {
            Directive::Skip => {}
            Directive::Stage { location, .. } => {
                scratch.insert(location, payload.to_vec());
            }
            Directive::StageAndRead { location, .. } => {
                scratch.insert(location.clone(), payload.to_vec());
                let text = String::from_utf8(scratch[&location].clone()).unwrap();
                run.record_path_text(path, &text);
            }
        }
    }
}

/// Carries out `jobs` on `tree`.
fn copy_all(tree: &mut Files, scratch: &Files, jobs: &[CopyJob]) {
    for job in jobs {
        tree.insert(job.destination.clone(), scratch[&job.source].clone());
    }
}

/// One whole run over `entries`, into `tree`.
fn restore_into(tree: &mut Files, name: &str, entries: &[(&str, &[u8])]) {
    let mut run = Restorer::begin(name).unwrap();
    let mut scratch = Files::new();
    feed(&mut run, &mut scratch, entries);
    copy_all(tree, &scratch, &run.plan());
}

fn restore(name: &str, entries: &[(&str, &[u8])]) -> Files {
    let mut tree = Files::new();
    restore_into(&mut tree, name, entries);
    tree
}

fn files(list: &[(&str, &[u8])]) -> Files {
    list.iter().map(|(path, bytes)| (path.to_string(), bytes.to_vec())).collect()
}

fn job(group_id: &str, source: &str, destination: &str, parent: &str) -> CopyJob {
    CopyJob {
        group_id: group_id.to_string(),
        source: source.to_string(),
        destination: destination.to_string(),
        parent: parent.to_string(),
    }
}

#[test]
fn begin_accepts_a_package_name() {
    let run = Restorer::begin("pkg.unitypackage").unwrap();
    assert_eq!(run.base_dir(), "pkg");
    assert_eq!(run.scratch_dir(), "pkg_temp");
    assert!(run.groups().is_empty());
    assert!(run.plan().is_empty());
}

#[test]
fn begin_derives_the_directories_from_the_whole_name() {
    let run = Restorer::begin("/data/in/My Pack.unitypackage").unwrap();
    assert_eq!(run.base_dir(), "/data/in/My Pack");
    assert_eq!(run.scratch_dir(), "/data/in/My Pack_temp");
}

#[test]
fn begin_refuses_a_name_without_the_suffix() {
    assert_eq!(Restorer::begin("pkg.zip").err(), Some(InvalidPackage));
    assert_eq!(Restorer::begin("").err(), Some(InvalidPackage));
    assert_eq!(Restorer::begin("pkg.unitypackage ").err(), Some(InvalidPackage));
    assert_eq!(Restorer::begin("unitypackage").err(), Some(InvalidPackage));
}

#[test]
fn invalid_package_has_its_diagnostic() {
    assert_eq!(InvalidPackage.message(), "Invalid package");
}

#[test]
fn a_meta_record_is_skipped() {
    let mut run = Restorer::begin("pkg.unitypackage").unwrap();
    assert_eq!(run.observe("abc/asset.meta"), Directive::Skip);
    assert!(run.groups().is_empty());
    run.record_path_text("abc/asset.meta", "Assets/x");
    assert!(run.groups().is_empty());
}

#[test]
fn another_entry_makes_its_group_known() {
    let mut run = Restorer::begin("pkg.unitypackage").unwrap();
    assert_eq!(run.observe("abc/preview.png"), Directive::Skip);
    assert_eq!(
        run.groups(),
        &vec![AssetGroup {
            group_id: "abc".to_string(),
            relative_path: None,
            content_location: None
        }]
    );
    assert!(run.plan().is_empty());
}

#[test]
fn a_path_record_is_staged_and_read() {
    let mut run = Restorer::begin("pkg.unitypackage").unwrap();
    assert_eq!(
        run.observe("abc/pathname"),
        Directive::StageAndRead {
            location: "pkg_temp/abc/pathname".to_string(),
            parent: "pkg_temp/abc".to_string(),
        }
    );
    assert_eq!(
        run.groups(),
        &vec![AssetGroup {
            group_id: "abc".to_string(),
            relative_path: None,
            content_location: None
        }]
    );
    run.record_path_text("abc/pathname", "  Assets/Textures/rock.png\r\n");
    assert_eq!(
        run.groups(),
        &vec![AssetGroup {
            group_id: "abc".to_string(),
            relative_path: Some("Assets/Textures/rock.png".to_string()),
            content_location: None
        }]
    );
}

#[test]
fn a_content_record_is_staged() {
    let mut run = Restorer::begin("pkg.unitypackage").unwrap();
    assert_eq!(
        run.observe("abc/asset"),
        Directive::Stage {
            location: "pkg_temp/abc/asset".to_string(),
            parent: "pkg_temp/abc".to_string(),
        }
    );
    assert_eq!(
        run.groups(),
        &vec![AssetGroup {
            group_id: "abc".to_string(),
            relative_path: None,
            content_location: Some("pkg_temp/abc/asset".to_string()),
        }]
    );
}

#[test]
fn text_for_an_entry_that_is_no_path_record_is_dropped() {
    let mut run = Restorer::begin("pkg.unitypackage").unwrap();
    run.observe("abc/asset");
    run.record_path_text("abc/asset", "Assets/x");
    run.record_path_text("abc/preview.png", "Assets/x");
    assert_eq!(run.groups()[0].relative_path, None);
    assert_eq!(run.groups().len(), 1);
}

#[test]
fn records_without_a_group_directory_share_the_empty_group() {
    let mut run = Restorer::begin("pkg.unitypackage").unwrap();
    assert_eq!(
        run.observe("asset"),
        Directive::Stage { location: "pkg_temp/asset".to_string(), parent: "pkg_temp".to_string() }
    );
    run.observe("pathname");
    run.record_path_text("pathname", "Assets/a.txt");
    assert_eq!(run.plan(), vec![job("", "pkg_temp/asset", "pkg/a.txt", "pkg")]);
}

#[test]
fn the_plan_names_source_destination_and_parent() {
    let mut run = Restorer::begin("out/pkg.unitypackage").unwrap();
    run.observe("abc/asset");
    run.observe("abc/pathname");
    run.record_path_text("abc/pathname", "Assets/Textures/rock.png\n");
    assert_eq!(
        run.plan(),
        vec![job(
            "abc",
            "out/pkg_temp/abc/asset",
            "out/pkg/Textures/rock.png",
            "out/pkg/Textures"
        )]
    );
}

#[test]
fn the_plan_follows_the_order_in_which_groups_were_first_seen() {
    let mut run = Restorer::begin("pkg.unitypackage").unwrap();
    let mut scratch = Files::new();
    feed(
        &mut run,
        &mut scratch,
        &[
            ("b/asset", b"B"),
            ("a/pathname", b"Assets/a"),
            ("c/asset.meta", b"-"),
            ("c/pathname", b"Assets/c"),
            ("b/pathname", b"Assets/b"),
            ("c/asset", b"C"),
            ("a/asset", b"A"),
        ],
    );
    let ids: Vec<String> = run.plan().into_iter().map(|j| j.group_id).collect();
    assert_eq!(ids, vec!["b", "a", "c"]);
}

#[test]
fn rock_texture_is_restored_under_the_base_directory() {
    let tree = restore(
        "pkg.unitypackage",
        &[("abc/pathname", b"Assets/Textures/rock.png\n"), ("abc/asset", b"PNGDATA")],
    );
    assert_eq!(tree, files(&[("pkg/Textures/rock.png", b"PNGDATA")]));
}

#[test]
fn path_without_asset_root_is_kept_unchanged() {
    let tree = restore(
        "pkg.unitypackage",
        &[("abc/pathname", b"Scripts/util.cs"), ("abc/asset", b"class Util {}")],
    );
    assert_eq!(tree, files(&[("pkg/Scripts/util.cs", b"class Util {}")]));
}

#[test]
fn records_may_arrive_in_either_order() {
    let path_first = restore(
        "pkg.unitypackage",
        &[("abc/pathname", b"Assets/a.txt"), ("x/asset.meta", b"m"), ("abc/asset", b"A")],
    );
    let content_first = restore(
        "pkg.unitypackage",
        &[("abc/asset", b"A"), ("x/asset.meta", b"m"), ("abc/pathname", b"Assets/a.txt")],
    );
    assert_eq!(path_first, files(&[("pkg/a.txt", b"A")]));
    assert_eq!(content_first, path_first);
}

#[test]
fn records_of_several_groups_may_interleave() {
    let tree = restore(
        "pkg.unitypackage",
        &[
            ("g1/asset", b"one"),
            ("g2/pathname", b"Assets/two.txt\n"),
            ("g1/asset.meta", b"meta"),
            ("g3/pathname", b"Assets/deep/three.txt"),
            ("g2/asset", b"two"),
            ("g1/pathname", b"Assets/one.txt"),
            ("g3/asset", b"three"),
        ],
    );
    assert_eq!(
        tree,
        files(&[
            ("pkg/deep/three.txt", b"three"),
            ("pkg/one.txt", b"one"),
            ("pkg/two.txt", b"two"),
        ])
    );
}

#[test]
fn a_group_without_content_record_is_skipped() {
    let tree = restore(
        "pkg.unitypackage",
        &[
            ("folder/pathname", b"Assets/Textures"),
            ("folder/asset.meta", b"meta"),
            ("abc/pathname", b"Assets/a.txt"),
            ("abc/asset", b"A"),
        ],
    );
    assert_eq!(tree, files(&[("pkg/a.txt", b"A")]));
}

#[test]
fn a_group_without_path_record_is_skipped() {
    let tree = restore(
        "pkg.unitypackage",
        &[("abc/asset", b"A"), ("abc/asset.meta", b"meta"), ("abc/preview.png", b"P")],
    );
    assert_eq!(tree, Files::new());
}

#[test]
fn an_empty_stream_restores_nothing() {
    assert_eq!(restore("pkg.unitypackage", &[]), Files::new());
}

#[test]
fn meta_records_do_not_affect_the_result() {
    let plain =
        restore("pkg.unitypackage", &[("abc/pathname", b"Assets/a.txt"), ("abc/asset", b"A")]);
    let with_meta = restore(
        "pkg.unitypackage",
        &[
            ("abc/asset.meta", b"guid: 1"),
            ("abc/pathname", b"Assets/a.txt"),
            ("abc/asset.meta", b"Assets/elsewhere.txt"),
            ("abc/asset", b"A"),
            ("zzz/asset.meta", b"guid: 2"),
        ],
    );
    let other_meta = restore(
        "pkg.unitypackage",
        &[
            ("abc/asset.meta", b""),
            ("abc/pathname", b"Assets/a.txt"),
            ("abc/asset.meta", b"\xff\xfe"),
            ("abc/asset", b"A"),
            ("zzz/asset.meta", b"something else"),
        ],
    );
    assert_eq!(plain, files(&[("pkg/a.txt", b"A")]));
    assert_eq!(with_meta, plain);
    assert_eq!(other_meta, plain);
}

#[test]
fn a_meta_record_creates_no_group() {
    let mut run = Restorer::begin("pkg.unitypackage").unwrap();
    let mut scratch = Files::new();
    feed(&mut run, &mut scratch, &[("a/asset.meta", b"m"), ("b/asset.meta", b"m")]);
    assert!(run.groups().is_empty());
    assert!(scratch.is_empty());
}

#[test]
fn the_last_record_of_a_kind_wins() {
    let tree = restore(
        "pkg.unitypackage",
        &[
            ("abc/pathname", b"Assets/old.txt"),
            ("abc/asset", b"old"),
            ("abc/pathname", b"Assets/new.txt"),
            ("abc/asset", b"new"),
        ],
    );
    assert_eq!(tree, files(&[("pkg/new.txt", b"new")]));
}

#[test]
fn restoring_twice_gives_the_same_tree() {
    let entries: [(&str, &[u8]); 5] = [
        ("g1/asset", b"one"),
        ("g2/pathname", b"Assets/two.txt\n"),
        ("g2/asset", b"two"),
        ("g1/pathname", b"Assets/sub/one.txt"),
        ("g3/asset", b"three"),
    ];
    let first = restore("pkg.unitypackage", &entries);
    let second = restore("pkg.unitypackage", &entries);
    assert_eq!(first, files(&[("pkg/sub/one.txt", b"one"), ("pkg/two.txt", b"two")]));
    assert_eq!(second, first);
    let mut over = first.clone();
    restore_into(&mut over, "pkg.unitypackage", &entries);
    assert_eq!(over, first);
}

#[test]
fn restoring_overwrites_what_is_there() {
    let mut tree = files(&[("pkg/a.txt", b"stale"), ("pkg/keep.txt", b"kept")]);
    restore_into(
        &mut tree,
        "pkg.unitypackage",
        &[("abc/pathname", b"Assets/a.txt"), ("abc/asset", b"fresh")],
    );
    assert_eq!(tree, files(&[("pkg/a.txt", b"fresh"), ("pkg/keep.txt", b"kept")]));
}

#[test]
fn the_scratch_area_mirrors_the_archive() {
    let mut run = Restorer::begin("pkg.unitypackage").unwrap();
    let mut scratch = Files::new();
    feed(
        &mut run,
        &mut scratch,
        &[
            ("abc/pathname", b"Assets/a.txt"),
            ("abc/asset", b"A"),
            ("abc/asset.meta", b"m"),
            ("abc/preview.png", b"P"),
        ],
    );
    assert_eq!(
        scratch,
        files(&[("pkg_temp/abc/asset", b"A"), ("pkg_temp/abc/pathname", b"Assets/a.txt")])
    );
}

#[test]
fn an_empty_relative_path_points_at_the_base_directory() {
    let mut run = Restorer::begin("pkg.unitypackage").unwrap();
    run.observe("abc/asset");
    run.observe("abc/pathname");
    run.record_path_text("abc/pathname", " \n");
    assert_eq!(run.plan(), vec![job("abc", "pkg_temp/abc/asset", "pkg/", "pkg")]);
}
