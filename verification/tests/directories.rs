use asseteer::directories::{directory_nodes, DirKind, DirNode};

fn find<'a>(nodes: &'a [DirNode], kind: DirKind, rel: &str, zip: &str, prefix: &str) -> (usize, &'a DirNode) {
    nodes
        .iter()
        .enumerate()
        .find(|(_, n)| n.key.kind == kind && n.key.rel_path == rel && n.key.zip_file == zip && n.key.zip_prefix == prefix)
        .expect("node present")
}

#[test]
fn tree_of_files_archives_and_archive_directories() {
    let fs = vec![("Packs/Drums".to_string(), 3), ("".to_string(), 5), ("Packs".to_string(), 1)];
    let zs = vec![("Packs".to_string(), "kit.zip".to_string(), 3)];
    let es = vec![
        ("Packs".to_string(), "kit.zip".to_string(), "Kicks/Hard/k1.wav".to_string()),
        ("Packs".to_string(), "kit.zip".to_string(), "Kicks/k2.wav".to_string()),
        ("Packs".to_string(), "kit.zip".to_string(), "top.wav".to_string()),
    ];
    let nodes = directory_nodes(&fs, &zs, &es);
    assert_eq!(nodes.len(), 5);

    let (packs_i, packs) = find(&nodes, DirKind::Fs, "Packs", "", "");
    let (drums_i, drums) = find(&nodes, DirKind::Fs, "Packs/Drums", "", "");
    let (zip_i, zip) = find(&nodes, DirKind::Zip, "Packs", "kit.zip", "");
    let (kicks_i, kicks) = find(&nodes, DirKind::ZipDir, "Packs", "kit.zip", "Kicks/");
    let (_, hard) = find(&nodes, DirKind::ZipDir, "Packs", "kit.zip", "Kicks/Hard/");

    // Parents come first
    assert_eq!(packs.parent, None);
    assert_eq!(drums.parent, Some(packs_i));
    assert_eq!(zip.parent, Some(packs_i));
    assert_eq!(kicks.parent, Some(zip_i));
    assert_eq!(hard.parent, Some(kicks_i));
    assert!(packs_i < drums_i && packs_i < zip_i && zip_i < kicks_i);

    assert_eq!((packs.name.as_str(), drums.name.as_str(), zip.name.as_str()), ("Packs", "Drums", "kit.zip"));
    assert_eq!((kicks.name.as_str(), hard.name.as_str()), ("Kicks", "Hard"));

    assert_eq!((packs.asset_count, drums.asset_count, zip.asset_count), (1, 3, 1));
    assert_eq!((kicks.asset_count, hard.asset_count), (1, 1));
    assert_eq!((packs.child_count, zip.child_count, kicks.child_count, hard.child_count), (2, 1, 1, 0));

    assert_eq!(hard.cumulative_asset_count, 1);
    assert_eq!(kicks.cumulative_asset_count, 2);
    assert_eq!(zip.cumulative_asset_count, 3);
    assert_eq!(packs.cumulative_asset_count, 1 + 3 + 3);
}

#[test]
fn nodes_are_ordered_by_kind_then_depth_then_text() {
    let fs = vec![("b/c".to_string(), 1), ("a".to_string(), 1)];
    let nodes = directory_nodes(&fs, &Vec::new(), &Vec::new());
    let paths: Vec<&str> = nodes.iter().map(|n| n.key.rel_path.as_str()).collect();
    assert_eq!(paths, vec!["a", "b", "b/c"]);
    assert_eq!(nodes[2].parent, Some(1));
}

#[test]
fn empty_rows_give_an_empty_tree() {
    let nodes = directory_nodes(&Vec::new(), &Vec::new(), &Vec::new());
    assert!(nodes.is_empty());
}

#[test]
fn archive_counts_only_its_root_entries_directly() {
    let zs = vec![("".to_string(), "set.zip".to_string(), 2)];
    let es = vec![
        ("".to_string(), "set.zip".to_string(), "s/a.wav".to_string()),
        ("".to_string(), "set.zip".to_string(), "s/b.wav".to_string()),
    ];
    let nodes = directory_nodes(&Vec::new(), &zs, &es);
    assert_eq!(nodes.len(), 2);
    let (zip_i, zip) = find(&nodes, DirKind::Zip, "", "set.zip", "");
    let (_, s_dir) = find(&nodes, DirKind::ZipDir, "", "set.zip", "s/");
    assert_eq!(zip.parent, None);
    assert_eq!(s_dir.parent, Some(zip_i));
    assert_eq!((zip.asset_count, zip.cumulative_asset_count), (0, 2));
    assert_eq!((s_dir.asset_count, s_dir.cumulative_asset_count), (2, 2));
}
