use memory_manifest::blobstore::MemBlobstore;
use memory_manifest::hash::{content_id, NodeHash};
use memory_manifest::manifest::{
    insert_at_path, insert_entry, ManifestError, MemoryManifestEntry, MemoryRootManifest,
};
use memory_manifest::types::{
    extend_repopath_with_dir, serialize_listing, HgBlobEntry, ListEntry, RepoPath, Type,
};

const ROOT_ID: &str = "b267a6869fcc39b37741408b5823cc044233201d";
const DIR2_ID: &str = "0c9f2b3f1a7e6d5c4b3a29180706f5e4d3c2b1a0";
const FILE1_ID: &str = "1111111111111111111111111111111111111111";
const FILE2_ID: &str = "2222222222222222222222222222222222222222";
const DIR1_ID: &str = "3333333333333333333333333333333333333333";
const INNER_ID: &str = "4444444444444444444444444444444444444444";

fn hash(s: &str) -> NodeHash {
    NodeHash::from_hex(s.as_bytes()).expect("Could not get nodehash")
}

fn hex(h: &NodeHash) -> String {
    String::from_utf8(h.to_hex()).unwrap()
}

fn line(name: &str, id: &str, ty: Type) -> ListEntry {
    ListEntry { name: name.as_bytes().to_vec(), hash: hash(id), ty }
}

/// A store holding the tree `ROOT_ID` with files "1", "2", "dir1" and the
/// directory "dir2", which holds the file "inner".
fn getrepo() -> MemBlobstore {
    let mut store = MemBlobstore::new();
    assert!(store.import_tree(hash(DIR2_ID), None, None, vec![line("inner", INNER_ID, Type::File)]));
    assert!(store.import_tree(
        hash(ROOT_ID),
        None,
        None,
        vec![
            line("1", FILE1_ID, Type::File),
            line("2", FILE2_ID, Type::Executable),
            line("dir1", DIR1_ID, Type::Symlink),
            line("dir2", DIR2_ID, Type::Tree),
        ],
    ));
    store
}

fn file_blob(name: &str, id: &str) -> MemoryManifestEntry {
    MemoryManifestEntry::Blob(HgBlobEntry::new(Some(name.as_bytes().to_vec()), hash(id), Type::File))
}

fn find_line<'a>(lines: &'a [ListEntry], name: &str) -> Option<&'a ListEntry> {
    lines.iter().find(|l| l.name == name.as_bytes())
}

#[test]
fn empty_manifest() {
    let blobstore = getrepo();

    // Create an empty memory manifest
    let memory_manifest =
        MemoryRootManifest::new(&blobstore, None, None).expect("Could not create empty manifest");

    if let MemoryManifestEntry::MemTree { children, p1, p2, modified } = memory_manifest.root_entry {
        assert!(children.is_empty(), "Empty manifest had children");
        assert!(p1.is_none(), "Empty manifest had p1");
        assert!(p2.is_none(), "Empty manifest had p2");
        assert!(!modified, "Empty (unaltered) manifest is modified");
    } else {
        panic!("Empty manifest is not a MemTree");
    }
}

#[test]
fn load_manifest() {
    let blobstore = getrepo();

    let manifest_id = hash(ROOT_ID);

    // Load a memory manifest
    let memory_manifest = MemoryRootManifest::new(&blobstore, Some(&manifest_id), None)
        .expect("Could not load manifest");

    if let MemoryManifestEntry::MemTree { children, p1, p2, modified } = memory_manifest.root_entry {
        assert_eq!(children.len(), 4);
        for (path, entry) in children {
            match path.as_slice() {
                b"1" | b"2" | b"dir1" => assert!(!entry.is_dir(), "{:?} is not a file", path),
                b"dir2" => assert!(entry.is_dir(), "{:?} is not a tree", path),
                _ => panic!("Unknown path {:?}", path),
            }
        }
        assert!(p1 == Some(manifest_id), "Loaded manifest had wrong p1");
        assert!(p2.is_none(), "Loaded manifest had p2");
        assert!(!modified, "Loaded (unaltered) manifest is modified");
    } else {
        panic!("Loaded manifest is not a MemTree");
    }
}

#[test]
fn save_manifest() {
    let mut blobstore = getrepo();

    // Create an empty memory manifest
    let mut memory_manifest =
        MemoryRootManifest::new(&blobstore, None, None).expect("Could not create empty manifest");

    // Add an entry
    let dir_nodehash = hash(ROOT_ID);
    let dir = MemoryManifestEntry::MemTree {
        children: Vec::new(),
        p1: Some(dir_nodehash.clone()),
        p2: None,
        modified: false,
    };
    let path = b"dir".to_vec();
    insert_entry(&mut memory_manifest.root_entry, path.clone(), dir).expect("insert failed");

    let manifest_id = memory_manifest.save(&mut blobstore).expect("Could not save manifest");

    let refound = blobstore
        .load_listing(manifest_id.get_hash())
        .expect("Lookup of entry just saved failed");
    let entry = refound
        .iter()
        .find(|l| l.name == path)
        .expect("Just saved entry not present");

    assert_eq!(hex(&entry.hash), hex(&dir_nodehash), "directory hash changed");
}

#[test]
fn saved_root_has_exact_hash() {
    let mut blobstore = getrepo();
    let mut m = MemoryRootManifest::new(&blobstore, None, None).unwrap();
    let dir = MemoryManifestEntry::MemTree {
        children: Vec::new(),
        p1: Some(hash(ROOT_ID)),
        p2: None,
        modified: false,
    };
    insert_entry(&mut m.root_entry, b"dir".to_vec(), dir).unwrap();
    let r = m.save(&mut blobstore).unwrap();
    assert_eq!(hex(r.get_hash()), "8ba87ca7271bd103090dc4d78897f79c0cb04c89");
    assert_eq!(r.get_type(), Type::Tree);
    assert!(r.get_name().is_none());
    let content = blobstore.get_content(r.get_hash()).unwrap();
    assert_eq!(content, b"dir\0b267a6869fcc39b37741408b5823cc044233201dt\n".to_vec());
}

#[test]
fn empty_root_cannot_be_saved_unedited() {
    let mut blobstore = getrepo();
    let m = MemoryRootManifest::new(&blobstore, None, None).unwrap();
    let before = blobstore.len();
    match m.save(&mut blobstore) {
        Err(ManifestError::UnchangedManifestMissingParent) => {}
        _ => panic!("an unedited empty manifest was saved"),
    }
    assert_eq!(blobstore.len(), before);
}

#[test]
fn modified_empty_tree_gets_empty_tree_hash() {
    let mut blobstore = MemBlobstore::new();
    let t = MemoryManifestEntry::MemTree { children: Vec::new(), p1: None, p2: None, modified: true };
    let r = t.save(&mut blobstore, &RepoPath::root()).unwrap();
    assert_eq!(hex(r.get_hash()), "da39a3ee5e6b4b0d3255bfef95601890afd80709");
    assert_eq!(blobstore.len(), 1);
    assert_eq!(blobstore.get_content(r.get_hash()).unwrap(), Vec::<u8>::new());
}

#[test]
fn single_parent_saves_to_parent_without_writes() {
    let mut blobstore = getrepo();
    let id = hash(ROOT_ID);
    let m = MemoryRootManifest::new(&blobstore, Some(&id), None).unwrap();
    let before = blobstore.len();
    let r = m.save(&mut blobstore).unwrap();
    assert_eq!(hex(r.get_hash()), ROOT_ID);
    assert_eq!(r.get_type(), Type::Tree);
    assert_eq!(blobstore.len(), before);
}

#[test]
fn second_parent_alone_is_loaded() {
    let blobstore = getrepo();
    let id = hash(DIR2_ID);
    let m = MemoryRootManifest::new(&blobstore, None, Some(&id)).unwrap();
    match m.root_entry {
        MemoryManifestEntry::MemTree { children, p1, .. } => {
            assert_eq!(children.len(), 1);
            assert_eq!(children[0].0, b"inner".to_vec());
            assert!(p1 == Some(id));
        }
        _ => panic!("not a tree"),
    }
}

#[test]
fn inserted_entry_is_listed_after_save() {
    let mut blobstore = getrepo();
    let id = hash(ROOT_ID);
    let mut m = MemoryRootManifest::new(&blobstore, Some(&id), None).unwrap();
    insert_entry(&mut m.root_entry, b"new".to_vec(), file_blob("new", FILE1_ID)).unwrap();
    let r = m.save(&mut blobstore).unwrap();
    assert_ne!(hex(r.get_hash()), ROOT_ID);
    let listing = blobstore.load_listing(r.get_hash()).unwrap();
    let names: Vec<&[u8]> = listing.iter().map(|l| l.name.as_slice()).collect();
    assert_eq!(names, vec![&b"1"[..], b"2", b"dir1", b"dir2", b"new"]);
    let new = find_line(&listing, "new").unwrap();
    assert_eq!(hex(&new.hash), FILE1_ID);
    assert_eq!(new.ty, Type::File);
    let dir2 = find_line(&listing, "dir2").unwrap();
    assert_eq!(hex(&dir2.hash), DIR2_ID);
    assert_eq!(dir2.ty, Type::Tree);
}

#[test]
fn nested_edit_changes_ancestor_hashes() {
    let mut blobstore = getrepo();
    let id = hash(ROOT_ID);
    let mut m = MemoryRootManifest::new(&blobstore, Some(&id), None).unwrap();
    if let MemoryManifestEntry::MemTree { children, modified, .. } = &mut m.root_entry {
        let dir2 = &mut children.iter_mut().find(|(n, _)| n == b"dir2").unwrap().1;
        insert_entry(dir2, b"added".to_vec(), file_blob("added", FILE2_ID)).unwrap();
        *modified = true;
    } else {
        panic!("not a tree");
    }
    let r = m.save(&mut blobstore).unwrap();
    assert_ne!(hex(r.get_hash()), ROOT_ID);
    let root_listing = blobstore.load_listing(r.get_hash()).unwrap();
    let dir2 = find_line(&root_listing, "dir2").unwrap();
    assert_ne!(hex(&dir2.hash), DIR2_ID);
    let dir2_listing = blobstore.load_listing(&dir2.hash).unwrap();
    let added = find_line(&dir2_listing, "added").unwrap();
    assert_eq!(hex(&added.hash), FILE2_ID);
    assert!(find_line(&dir2_listing, "inner").is_some());
}

#[test]
fn saving_twice_gives_same_hash() {
    let mut blobstore = getrepo();
    let mut t = MemoryManifestEntry::MemTree { children: Vec::new(), p1: None, p2: None, modified: false };
    insert_entry(&mut t, b"a".to_vec(), file_blob("a", FILE1_ID)).unwrap();
    let r1 = t.save(&mut blobstore, &RepoPath::root()).unwrap();
    let r2 = t.save(&mut blobstore, &RepoPath::root()).unwrap();
    assert_eq!(hex(r1.get_hash()), hex(r2.get_hash()));
}

#[test]
fn identical_subtrees_share_hash() {
    let mut blobstore = MemBlobstore::new();
    let sub = || {
        let mut t =
            MemoryManifestEntry::MemTree { children: Vec::new(), p1: None, p2: None, modified: false };
        insert_entry(&mut t, b"f".to_vec(), file_blob("f", FILE1_ID)).unwrap();
        t
    };
    let mut root =
        MemoryManifestEntry::MemTree { children: Vec::new(), p1: None, p2: None, modified: false };
    insert_entry(&mut root, b"x".to_vec(), sub()).unwrap();
    insert_entry(&mut root, b"y".to_vec(), sub()).unwrap();
    let r = root.save(&mut blobstore, &RepoPath::root()).unwrap();
    let listing = blobstore.load_listing(r.get_hash()).unwrap();
    let x = find_line(&listing, "x").unwrap();
    let y = find_line(&listing, "y").unwrap();
    assert_eq!(hex(&x.hash), hex(&y.hash));

    // Saved at different paths, the subtree keeps its hash and takes its path's name.
    let a = sub().save(&mut blobstore, &RepoPath::root()).unwrap();
    let deep = extend_repopath_with_dir(&extend_repopath_with_dir(&RepoPath::root(), &b"p".to_vec()), &b"q".to_vec());
    let b = sub().save(&mut blobstore, &deep).unwrap();
    assert_eq!(hex(a.get_hash()), hex(b.get_hash()));
    assert!(a.get_name().is_none());
    assert_eq!(b.get_name().clone(), Some(b"q".to_vec()));
}

#[test]
fn two_parents_make_a_conflict() {
    let mut blobstore = getrepo();
    let a = hash(ROOT_ID);
    let b = hash(DIR2_ID);
    let m = MemoryRootManifest::new(&blobstore, Some(&a), Some(&b)).unwrap();
    match &m.root_entry {
        MemoryManifestEntry::Conflict(v) => {
            assert_eq!(v.len(), 2);
            match &v[0] {
                MemoryManifestEntry::MemTree { p1, .. } => assert!(*p1 == Some(hash(ROOT_ID))),
                _ => panic!("first side is not a tree"),
            }
            match &v[1] {
                MemoryManifestEntry::MemTree { p1, .. } => assert!(*p1 == Some(hash(DIR2_ID))),
                _ => panic!("second side is not a tree"),
            }
        }
        _ => panic!("two parents did not make a conflict"),
    }
    match m.save(&mut blobstore) {
        Err(ManifestError::UnresolvedConflicts) => {}
        _ => panic!("a conflict was saved"),
    }
}

#[test]
fn conflict_below_root_stops_save() {
    let mut blobstore = MemBlobstore::new();
    let mut root =
        MemoryManifestEntry::MemTree { children: Vec::new(), p1: None, p2: None, modified: false };
    let conflict =
        MemoryManifestEntry::Conflict(vec![file_blob("c", FILE1_ID), file_blob("c", FILE2_ID)]);
    insert_entry(&mut root, b"c".to_vec(), conflict).unwrap();
    match root.save(&mut blobstore, &RepoPath::root()) {
        Err(ManifestError::UnresolvedConflicts) => {}
        _ => panic!("a conflict was saved"),
    }
}

#[test]
fn missing_parent_is_reported() {
    let blobstore = getrepo();
    let id = hash(FILE1_ID);
    match MemoryRootManifest::new(&blobstore, Some(&id), None) {
        Err(ManifestError::TreeMissing(h)) => assert_eq!(hex(&h), FILE1_ID),
        _ => panic!("a missing parent was loaded"),
    }
}

#[test]
fn cyclic_store_is_too_deep() {
    let mut blobstore = MemBlobstore::new();
    assert!(blobstore.import_tree(hash(ROOT_ID), None, None, vec![line("self", ROOT_ID, Type::Tree)]));
    match MemoryManifestEntry::convert_treenode(&blobstore, &hash(ROOT_ID)) {
        Err(ManifestError::TreeTooDeep(_)) => {}
        _ => panic!("a cycle was loaded"),
    }
}

#[test]
fn insert_into_blob_fails() {
    let mut b = file_blob("f", FILE1_ID);
    match insert_entry(&mut b, b"x".to_vec(), file_blob("x", FILE2_ID)) {
        Err(ManifestError::NotATree) => {}
        _ => panic!("inserted into a blob"),
    }
}

#[test]
fn insert_replaces_existing_name() {
    let mut t = MemoryManifestEntry::MemTree { children: Vec::new(), p1: None, p2: None, modified: false };
    insert_entry(&mut t, b"b".to_vec(), file_blob("b", FILE1_ID)).unwrap();
    insert_entry(&mut t, b"a".to_vec(), file_blob("a", FILE1_ID)).unwrap();
    insert_entry(&mut t, b"b".to_vec(), file_blob("b", FILE2_ID)).unwrap();
    match t {
        MemoryManifestEntry::MemTree { children, modified, .. } => {
            assert!(modified);
            let names: Vec<Vec<u8>> = children.iter().map(|(n, _)| n.clone()).collect();
            assert_eq!(names, vec![b"a".to_vec(), b"b".to_vec()]);
            match &children[1].1 {
                MemoryManifestEntry::Blob(b) => assert_eq!(hex(b.get_hash()), FILE2_ID),
                _ => panic!("not a blob"),
            }
        }
        _ => panic!("not a tree"),
    }
}

#[test]
fn import_refuses_unsorted_listing() {
    let mut blobstore = MemBlobstore::new();
    let ok = blobstore.import_tree(
        hash(ROOT_ID),
        None,
        None,
        vec![line("b", FILE1_ID, Type::File), line("a", FILE2_ID, Type::File)],
    );
    assert!(!ok);
    assert_eq!(blobstore.len(), 0);
    let bad_name = blobstore.import_tree(hash(ROOT_ID), None, None, vec![line("a/b", FILE1_ID, Type::File)]);
    assert!(!bad_name);
}

#[test]
fn listing_serializes_canonically() {
    let lines = vec![
        line("a", FILE1_ID, Type::File),
        line("b", FILE2_ID, Type::Executable),
        line("c", DIR1_ID, Type::Symlink),
        line("d", DIR2_ID, Type::Tree),
    ];
    let expected = format!(
        "a\0{}\nb\0{}x\nc\0{}l\nd\0{}t\n",
        FILE1_ID, FILE2_ID, DIR1_ID, DIR2_ID
    );
    assert_eq!(serialize_listing(&lines), expected.into_bytes());
}

#[test]
fn content_id_is_sha1_of_bytes() {
    assert_eq!(hex(&content_id(&b"abc".to_vec())), "a9993e364706816aba3e25717850c26c9cd0d89d");
    assert_eq!(hex(&content_id(&Vec::new())), "da39a3ee5e6b4b0d3255bfef95601890afd80709");
}

#[test]
fn parents_do_not_change_the_identifier() {
    let mut blobstore = MemBlobstore::new();
    let tree = |p1: Option<NodeHash>, p2: Option<NodeHash>| {
        let mut t = MemoryManifestEntry::MemTree { children: Vec::new(), p1, p2, modified: true };
        insert_entry(&mut t, b"f".to_vec(), file_blob("f", FILE1_ID)).unwrap();
        t
    };
    let a = tree(None, None).save(&mut blobstore, &RepoPath::root()).unwrap();
    let b = tree(Some(hash(ROOT_ID)), Some(hash(DIR2_ID))).save(&mut blobstore, &RepoPath::root()).unwrap();
    assert_eq!(hex(a.get_hash()), hex(b.get_hash()));
}

#[test]
fn resaving_an_untouched_tree_keeps_its_identifier() {
    // A store whose record sits under its own content identifier.
    let mut blobstore = MemBlobstore::new();
    let lines = vec![line("inner", INNER_ID, Type::File)];
    let id = content_id(&serialize_listing(&lines));
    assert_eq!(hex(&id), "3ffb10e0c02b79a2aea02f92f54469ab799c4176");
    assert!(blobstore.import_tree(id.clone(), None, None, lines));
    let mut m = MemoryRootManifest::new(&blobstore, Some(&id), None).unwrap();
    if let MemoryManifestEntry::MemTree { modified, .. } = &mut m.root_entry {
        *modified = true;
    }
    let r = m.save(&mut blobstore).unwrap();
    assert_eq!(hex(r.get_hash()), hex(&id));
    assert_eq!(blobstore.len(), 2);
}

#[test]
fn missing_parent_on_empty_store_is_missing() {
    let blobstore = MemBlobstore::new();
    let id = hash(ROOT_ID);
    match MemoryRootManifest::new(&blobstore, Some(&id), None) {
        Err(ManifestError::TreeMissing(h)) => assert_eq!(hex(&h), ROOT_ID),
        _ => panic!("a missing parent was not reported missing"),
    }
}

#[test]
fn missing_subtree_is_missing() {
    let mut blobstore = MemBlobstore::new();
    assert!(blobstore.import_tree(hash(ROOT_ID), None, None, vec![line("d", DIR2_ID, Type::Tree)]));
    match MemoryManifestEntry::convert_treenode(&blobstore, &hash(ROOT_ID)) {
        Err(ManifestError::TreeMissing(h)) => assert_eq!(hex(&h), DIR2_ID),
        _ => panic!("a missing subtree was not reported missing"),
    }
    let other = hash(FILE1_ID);
    match MemoryRootManifest::new(&blobstore, Some(&hash(ROOT_ID)), Some(&other)) {
        Err(ManifestError::TreeMissing(h)) => assert_eq!(hex(&h), DIR2_ID),
        _ => panic!("a missing subtree of the first parent was not reported"),
    }
}

#[test]
fn failing_child_writes_no_parent_record() {
    let mut blobstore = MemBlobstore::new();
    let mut root =
        MemoryManifestEntry::MemTree { children: Vec::new(), p1: None, p2: None, modified: true };
    let mut ok_sub =
        MemoryManifestEntry::MemTree { children: Vec::new(), p1: None, p2: None, modified: false };
    insert_entry(&mut ok_sub, b"f".to_vec(), file_blob("f", FILE1_ID)).unwrap();
    insert_entry(&mut root, b"a".to_vec(), ok_sub).unwrap();
    let conflict =
        MemoryManifestEntry::Conflict(vec![file_blob("b", FILE1_ID), file_blob("b", FILE2_ID)]);
    insert_entry(&mut root, b"b".to_vec(), conflict).unwrap();
    match root.save(&mut blobstore, &RepoPath::root()) {
        Err(ManifestError::UnresolvedConflicts) => {}
        _ => panic!("a conflict was saved"),
    }
    // Only the sibling saved before the conflict was written.
    assert_eq!(blobstore.len(), 1);
}

#[test]
fn save_writes_one_record_per_modified_tree() {
    let mut blobstore = getrepo();
    let id = hash(ROOT_ID);
    let mut m = MemoryRootManifest::new(&blobstore, Some(&id), None).unwrap();
    let path = vec![b"dir2".to_vec(), b"sub".to_vec(), b"f".to_vec()];
    insert_at_path(&mut m.root_entry, &path, file_blob("f", FILE2_ID)).unwrap();
    let before = blobstore.len();
    m.save(&mut blobstore).unwrap();
    assert_eq!(blobstore.len(), before + 3);
}

#[test]
fn hex_round_trip() {
    let h = NodeHash::from_hex(b"B267A6869FCC39B37741408B5823CC044233201D").unwrap();
    assert_eq!(hex(&h), ROOT_ID);
    assert_eq!(h.as_bytes()[0], 0xb2);
    assert!(NodeHash::from_hex(b"b267").is_none());
    assert!(NodeHash::from_hex(b"g267a6869fcc39b37741408b5823cc044233201d").is_none());
}

fn child<'a>(e: &'a MemoryManifestEntry, name: &str) -> &'a MemoryManifestEntry {
    match e {
        MemoryManifestEntry::MemTree { children, .. } => {
            &children.iter().find(|(n, _)| n == name.as_bytes()).expect("no such child").1
        }
        _ => panic!("not a tree"),
    }
}

fn modified_tree(e: &MemoryManifestEntry) -> bool {
    matches!(e, MemoryManifestEntry::MemTree { modified: true, .. })
}

#[test]
fn insert_at_path_marks_every_ancestor() {
    let mut blobstore = getrepo();
    let id = hash(ROOT_ID);
    let mut m = MemoryRootManifest::new(&blobstore, Some(&id), None).unwrap();
    let path = vec![b"dir2".to_vec(), b"sub".to_vec(), b"f".to_vec()];
    insert_at_path(&mut m.root_entry, &path, file_blob("f", FILE2_ID)).unwrap();

    assert!(modified_tree(&m.root_entry));
    let dir2 = child(&m.root_entry, "dir2");
    assert!(modified_tree(dir2));
    match dir2 {
        MemoryManifestEntry::MemTree { p1, .. } => assert!(*p1 == Some(hash(DIR2_ID))),
        _ => panic!("dir2 is not a tree"),
    }
    let sub = child(dir2, "sub");
    match sub {
        MemoryManifestEntry::MemTree { p1, p2, modified, .. } => {
            assert!(p1.is_none() && p2.is_none() && *modified);
        }
        _ => panic!("sub is not a tree"),
    }
    assert!(!child(dir2, "inner").is_dir());
    assert!(!child(sub, "f").is_dir());

    let r = m.save(&mut blobstore).unwrap();
    let root = blobstore.load_listing(r.get_hash()).unwrap();
    let dir2_line = find_line(&root, "dir2").unwrap();
    assert_ne!(hex(&dir2_line.hash), DIR2_ID);
    let dir2_listing = blobstore.load_listing(&dir2_line.hash).unwrap();
    let sub_line = find_line(&dir2_listing, "sub").unwrap();
    assert_eq!(sub_line.ty, Type::Tree);
    let sub_listing = blobstore.load_listing(&sub_line.hash).unwrap();
    assert_eq!(hex(&find_line(&sub_listing, "f").unwrap().hash), FILE2_ID);
    // Untouched siblings keep their hashes.
    assert_eq!(hex(&find_line(&root, "1").unwrap().hash), FILE1_ID);
    assert_eq!(hex(&find_line(&dir2_listing, "inner").unwrap().hash), INNER_ID);
}

#[test]
fn insert_at_path_through_a_file_fails() {
    let blobstore = getrepo();
    let id = hash(ROOT_ID);
    let mut m = MemoryRootManifest::new(&blobstore, Some(&id), None).unwrap();
    let path = vec![b"1".to_vec(), b"x".to_vec()];
    match insert_at_path(&mut m.root_entry, &path, file_blob("x", FILE2_ID)) {
        Err(ManifestError::NotATree) => {}
        _ => panic!("inserted below a file"),
    }
    assert!(!modified_tree(&m.root_entry));
    let mut blob = file_blob("b", FILE1_ID);
    match insert_at_path(&mut blob, &vec![b"x".to_vec()], file_blob("x", FILE2_ID)) {
        Err(ManifestError::NotATree) => {}
        _ => panic!("inserted into a blob"),
    }
}
