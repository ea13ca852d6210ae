use flate2::read::GzDecoder;
use flate2::write::GzEncoder;
use flate2::Compression;
use std::collections::BTreeMap;
use std::io::{Read, Write};
use tar::{Archive, Builder, Header};
use unitypackage_extractor::restorer::{Directive, Restorer};

type Files = BTreeMap<String, Vec<u8>>;

/// A package with the given entries, as the bytes of a gzipped tar archive.
fn package(entries: &[(&str, &[u8])]) -> Vec<u8> {
    let mut builder = Builder::new(Vec::new());
    for (path, payload) in entries {
        let mut header = Header::new_gnu();
        header.set_size(payload.len() as u64);
        header.set_mode(0o644);
        builder.append_data(&mut header, path, *payload).unwrap();
    }
    let tar_bytes = builder.into_inner().unwrap();
    let mut encoder = GzEncoder::new(Vec::new(), Compression::default());
    encoder.write_all(&tar_bytes).unwrap();
    encoder.finish().unwrap()
}

/// Restores the package `bytes`, named `name`, with memory for a file system.
fn restore(name: &str, bytes: &[u8]) -> Files {
    let mut run = Restorer::begin(name).unwrap();
    let mut scratch = Files::new();
    let mut archive = Archive::new(GzDecoder::new(bytes));
    for entry in archive.entries().unwrap() {
        let mut entry = entry.unwrap();
        let path = entry.path().unwrap().to_string_lossy().to_string();
        match run.observe(&path) {
            Directive::Skip => {}
            Directive::Stage { location, .. } => {
                let mut payload = Vec::new();
                entry.read_to_end(&mut payload).unwrap();
                scratch.insert(location, payload);
            }
            Directive::StageAndRead { location, .. } => {
                let mut text = String::new();
                entry.read_to_string(&mut text).unwrap();
                scratch.insert(location, text.clone().into_bytes());
                run.record_path_text(&path, &text);
            }
        }
    }
    let mut tree = Files::new();
    for job in run.plan() {
        tree.insert(job.destination, scratch[&job.source].clone());
    }
    tree
}

fn files(list: &[(&str, &[u8])]) -> Files {
    list.iter().map(|(path, bytes)| (path.to_string(), bytes.to_vec())).collect()
}

#[test]
fn a_packed_texture_is_restored() {
    let bytes = package(&[
        ("0123abcd/asset", b"PNGDATA"),
        ("0123abcd/asset.meta", b"fileFormatVersion: 2"),
        ("0123abcd/pathname", b"Assets/Textures/rock.png\n"),
    ]);
    assert_eq!(
        restore("rocks.unitypackage", &bytes),
        files(&[("rocks/Textures/rock.png", b"PNGDATA")])
    );
}

#[test]
fn a_packed_script_outside_the_asset_root_is_restored() {
    let bytes = package(&[("ff00/pathname", b"Scripts/util.cs"), ("ff00/asset", b"class Util {}")]);
    assert_eq!(
        restore("tools.unitypackage", &bytes),
        files(&[("tools/Scripts/util.cs", b"class Util {}")])
    );
}

#[test]
fn a_packed_folder_asset_is_skipped() {
    let bytes = package(&[
        ("aa/pathname", b"Assets/Textures"),
        ("aa/asset.meta", b"folderAsset: yes"),
        ("bb/pathname", b"Assets/Textures/rock.png"),
        ("bb/asset.meta", b"guid: bb"),
        ("bb/asset", b"\x89PNG\r\n\x00\xff"),
        ("bb/preview.png", b"thumb"),
    ]);
    assert_eq!(
        restore("rocks.unitypackage", &bytes),
        files(&[("rocks/Textures/rock.png", b"\x89PNG\r\n\x00\xff")])
    );
}

#[test]
fn packed_entries_with_a_leading_dot_are_grouped_alike() {
    let bytes = package(&[
        ("./aa/asset", b"one"),
        ("./bb/pathname", b"Assets/two.txt"),
        ("./aa/pathname", b"Assets/one.txt"),
        ("./bb/asset", b"two"),
    ]);
    assert_eq!(
        restore("p.unitypackage", &bytes),
        files(&[("p/one.txt", b"one"), ("p/two.txt", b"two")])
    );
}
