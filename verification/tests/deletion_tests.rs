use superseedr::deletion::{calculate_deletion_lists, FsPath};

fn path(s: &str) -> FsPath {
    FsPath::parse(s)
}

fn mock_files(paths: Vec<&str>) -> Vec<FsPath> {
    paths.into_iter().map(path).collect()
}

#[test]
fn test_delete_single_file_torrent() {
    let base = path("/Downloads");
    let files = mock_files(vec!["/Downloads/linux.iso"]);

    let (files, dirs) = calculate_deletion_lists(&files, &base, None);

    assert_eq!(files.len(), 1);
    assert_eq!(files[0], path("/Downloads/linux.iso"));
    assert!(
        dirs.is_empty(),
        "Single file torrent should not delete root dir"
    );
}

#[test]
fn test_delete_standard_folder_torrent() {
    let base = path("/Downloads");
    let files = mock_files(vec!["/Downloads/Album/01.mp3", "/Downloads/Album/02.mp3"]);

    let (_, dirs) = calculate_deletion_lists(&files, &base, None);

    assert_eq!(dirs.len(), 1);
    assert_eq!(dirs[0], path("/Downloads/Album"));
}

#[test]
fn test_delete_nested_directories() {
    let base = path("/Downloads");
    let files = mock_files(vec![
        "/Downloads/Game/readme.txt",
        "/Downloads/Game/Data/config.ini",
        "/Downloads/Game/Data/Textures/skin.png",
    ]);

    let (_, dirs) = calculate_deletion_lists(&files, &base, None);

    assert_eq!(dirs.len(), 3);
    assert_eq!(dirs[0], path("/Downloads/Game/Data/Textures"));
    assert_eq!(dirs[1], path("/Downloads/Game/Data"));
    assert_eq!(dirs[2], path("/Downloads/Game"));
}

#[test]
fn test_delete_safety_boundary_escape() {
    let base = path("/Downloads");
    let files = mock_files(vec!["/System/Critical/boot.ini"]);

    let (files, dirs) = calculate_deletion_lists(&files, &base, None);

    assert_eq!(files.len(), 1);
    assert!(
        dirs.is_empty(),
        "Should not identify directories outside base path"
    );
}

#[test]
fn test_delete_matching_container() {
    let base = path("/Downloads/LinuxDistro");
    let name = "LinuxDistro";
    let files = mock_files(vec!["/Downloads/LinuxDistro/image.iso"]);

    let (_, dirs) = calculate_deletion_lists(&files, &base, Some(name));

    assert!(
        dirs.contains(&base),
        "Should delete container if name matches"
    );
}

#[test]
fn test_delete_root_safety_mismatch() {
    let base = path("/Downloads");
    let name = "LinuxDistro";
    let files = mock_files(vec!["/Downloads/image.iso"]);

    let (_, dirs) = calculate_deletion_lists(&files, &base, Some(name));

    assert!(
        dirs.is_empty(),
        "Should NOT delete root folder if names mismatch"
    );
}

#[test]
fn test_delete_renamed_container_safety() {
    let base = path("/Downloads/MyStuff");
    let name = "LinuxDistro";
    let files = mock_files(vec!["/Downloads/MyStuff/image.iso"]);

    let (_, dirs) = calculate_deletion_lists(&files, &base, Some(name));

    assert!(
        dirs.is_empty(),
        "Should preserve renamed container for safety"
    );
}

#[test]
fn test_delete_subfolders_always() {
    let base = path("/Downloads");
    let name = "Album";
    let files = mock_files(vec!["/Downloads/Album/song.mp3"]);

    let (_, dirs) = calculate_deletion_lists(&files, &base, Some(name));

    assert_eq!(dirs.len(), 1);
    assert_eq!(dirs[0], path("/Downloads/Album"));
}

#[test]
fn parse_splits_on_separators_and_drops_empty_names() {
    let p = path("/a//b/");
    assert!(p.absolute);
    assert_eq!(p.components, vec![b"a".to_vec(), b"b".to_vec()]);
    let q = path("rel/x");
    assert!(!q.absolute);
    assert_eq!(q.components.len(), 2);
}

#[test]
fn deletion_lists_deduplicate_shared_directories_and_keep_container_last() {
    let base = path("/D/Pack");
    let files = mock_files(vec!["/D/Pack/a/x", "/D/Pack/a/y", "/D/Pack/bb/z"]);
    let (_, dirs) = calculate_deletion_lists(&files, &base, Some("Pack"));
    assert_eq!(dirs.len(), 3);
    assert_eq!(dirs[0], path("/D/Pack/bb"));
    assert_eq!(dirs[1], path("/D/Pack/a"));
    assert_eq!(dirs[2], path("/D/Pack"));
}

#[test]
fn parse_drops_inner_dot_names_like_std() {
    let p = FsPath::parse("a/./b/.");
    assert_eq!(p.components, vec![b"a".to_vec(), b"b".to_vec()]);
    let q = FsPath::parse("./a");
    assert_eq!(q.components, vec![b".".to_vec(), b"a".to_vec()]);
    let r = FsPath::parse("/./a");
    assert!(r.absolute);
    assert_eq!(r.components, vec![b"a".to_vec()]);
}
