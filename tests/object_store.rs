use code_crafters_git::builder::{build_commit, build_tree, BuildError};
use code_crafters_git::compress::{compress, decompress, CorruptData};
use code_crafters_git::decode::{decode, CodecError};
use code_crafters_git::hash::{fingerprint, ObjectId, ObjectKind};
use code_crafters_git::init_git_repo;
use code_crafters_git::object::{encode_entries, Commit, FileMode, Object, Signature, TreeEntry};
use code_crafters_git::repo::InitError;
use code_crafters_git::store::{object_path, split_header, ObjectStore, StoreError};

fn hex(id: &ObjectId) -> String {
    String::from_utf8(id.to_hex()).unwrap()
}

fn id_from(s: &str) -> ObjectId {
    ObjectId::from_hex(s.as_bytes()).unwrap()
}

fn entry(name: &str, mode: FileMode, target: &ObjectId) -> TreeEntry {
    TreeEntry { name: name.as_bytes().to_vec(), mode, target: target.duplicate() }
}

fn sig(name: &str, email: &str, timestamp: u64, tz_offset: i16) -> Signature {
    Signature {
        name: name.as_bytes().to_vec(),
        email: email.as_bytes().to_vec(),
        timestamp,
        tz_offset,
    }
}

fn blob_bytes(o: &Object) -> Vec<u8> {
    match o {
        Object::Blob(b) => b.clone(),
        _ => panic!("not a blob"),
    }
}

#[test]
fn hello_blob_has_pinned_fingerprint_and_reads_back() {
    let mut store = ObjectStore::new();
    let id = store.put(&Object::Blob(b"Hello, Git!\n".to_vec()));
    assert_eq!(hex(&id), "670a245535fe6316eb2316c1103b1a88bb519334");
    let back = store.get(&id).unwrap();
    assert_eq!(blob_bytes(&back), b"Hello, Git!\n".to_vec());
}

#[test]
fn empty_blob_fingerprint() {
    let id = fingerprint(ObjectKind::Blob, b"");
    assert_eq!(hex(&id), "e69de29bb2d1d6434b8b29ae775ad8c2e48c5391");
}

#[test]
fn put_twice_is_idempotent() {
    let mut store = ObjectStore::new();
    let a = store.put(&Object::Blob(b"same".to_vec()));
    let b = store.put(&Object::Blob(b"same".to_vec()));
    assert!(a.same_as(&b));
    assert!(store.contains(&a));
    assert_eq!(blob_bytes(&store.get(&b).unwrap()), b"same".to_vec());
}

#[test]
fn tree_entry_order_does_not_matter() {
    let f1 = id_from("1111111111111111111111111111111111111111");
    let f2 = id_from("2222222222222222222222222222222222222222");
    let mut store = ObjectStore::new();
    let x = build_tree(
        &mut store,
        &vec![entry("b", FileMode::Regular, &f1), entry("a", FileMode::Regular, &f2)],
    )
    .unwrap();
    let y = build_tree(
        &mut store,
        &vec![entry("a", FileMode::Regular, &f2), entry("b", FileMode::Regular, &f1)],
    )
    .unwrap();
    assert!(x.same_as(&y));
    assert_eq!(hex(&x), "ef9671873c8a4da88ad95a77f96935a8b9c03fc1");
}

#[test]
fn directory_entries_sort_as_if_ending_in_slash() {
    let f = id_from("1111111111111111111111111111111111111111");
    let mut store = ObjectStore::new();
    let id = build_tree(
        &mut store,
        &vec![entry("a", FileMode::Directory, &f), entry("a-b", FileMode::Regular, &f)],
    )
    .unwrap();
    match store.get(&id).unwrap() {
        Object::Tree(es) => {
            assert_eq!(es.len(), 2);
            assert_eq!(es[0].name, b"a-b".to_vec());
            assert_eq!(es[1].name, b"a".to_vec());
            let bytes = encode_entries(&es);
            assert!(bytes.starts_with(b"100644 a-b\0"));
        }
        _ => panic!("not a tree"),
    }
}

#[test]
fn duplicate_tree_names_are_rejected() {
    let f = id_from("1111111111111111111111111111111111111111");
    let mut store = ObjectStore::new();
    let r = build_tree(
        &mut store,
        &vec![entry("a", FileMode::Regular, &f), entry("a", FileMode::Directory, &f)],
    );
    assert_eq!(r.err(), Some(BuildError::DuplicateName));
}

#[test]
fn unusable_tree_names_are_rejected() {
    let f = id_from("1111111111111111111111111111111111111111");
    let mut store = ObjectStore::new();
    let r = build_tree(&mut store, &vec![entry("a/b", FileMode::Regular, &f)]);
    assert_eq!(r.err(), Some(BuildError::InvalidName));
    let r = build_tree(&mut store, &vec![entry("", FileMode::Regular, &f)]);
    assert_eq!(r.err(), Some(BuildError::InvalidName));
}

#[test]
fn commit_to_missing_tree_is_dangling() {
    let mut store = ObjectStore::new();
    let f = id_from("4b825dc642cb6eb9a060e54bf8d69288fbee4904");
    let r = build_commit(
        &mut store,
        &f,
        vec![],
        sig("A", "a@example.com", 1, 0),
        sig("A", "a@example.com", 1, 0),
        b"m".to_vec(),
    );
    assert_eq!(r.err(), Some(BuildError::DanglingReference));
}

#[test]
fn commit_to_missing_parent_is_dangling() {
    let mut store = ObjectStore::new();
    let tree = build_tree(&mut store, &vec![]).unwrap();
    let missing = id_from("3333333333333333333333333333333333333333");
    let r = build_commit(
        &mut store,
        &tree,
        vec![missing],
        sig("A", "a@example.com", 1, 0),
        sig("A", "a@example.com", 1, 0),
        b"m".to_vec(),
    );
    assert_eq!(r.err(), Some(BuildError::DanglingReference));
}

#[test]
fn commit_with_bad_signature_is_refused() {
    let mut store = ObjectStore::new();
    let tree = build_tree(&mut store, &vec![]).unwrap();
    let r = build_commit(
        &mut store,
        &tree,
        vec![],
        sig("A <x>", "a@example.com", 1, 0),
        sig("A", "a@example.com", 1, 0),
        b"m".to_vec(),
    );
    assert_eq!(r.err(), Some(BuildError::InvalidSignature));
}

#[test]
fn commit_has_pinned_fingerprint_and_reads_back() {
    let mut store = ObjectStore::new();
    let tree = build_tree(&mut store, &vec![]).unwrap();
    assert_eq!(hex(&tree), "4b825dc642cb6eb9a060e54bf8d69288fbee4904");
    let id = build_commit(
        &mut store,
        &tree,
        vec![],
        sig("A U Thor", "author@example.com", 1700000000, 60),
        sig("C O Mitter", "c@example.com", 1700000100, -330),
        b"Initial commit\n".to_vec(),
    )
    .unwrap();
    assert_eq!(hex(&id), "cb1de8fe666a8c9c8046e20a6c5d8a8bbbbff79e");
    match store.get(&id).unwrap() {
        Object::Commit(c) => {
            assert!(c.tree.same_as(&tree));
            assert_eq!(c.parents.len(), 0);
            assert_eq!(c.author.name, b"A U Thor".to_vec());
            assert_eq!(c.author.tz_offset, 60);
            assert_eq!(c.committer.timestamp, 1700000100);
            assert_eq!(c.committer.tz_offset, -330);
            assert_eq!(c.message, b"Initial commit\n".to_vec());
        }
        _ => panic!("not a commit"),
    }
}

#[test]
fn merge_commit_round_trips() {
    let mut store = ObjectStore::new();
    let tree = build_tree(&mut store, &vec![]).unwrap();
    let p1 = build_commit(&mut store, &tree, vec![], sig("A", "a@x", 5, 0), sig("A", "a@x", 5, 0), b"one".to_vec()).unwrap();
    let p2 = build_commit(&mut store, &tree, vec![], sig("B", "b@x", 6, 0), sig("B", "b@x", 6, 0), b"two".to_vec()).unwrap();
    let m = build_commit(
        &mut store,
        &tree,
        vec![p1.duplicate(), p2.duplicate()],
        sig("M", "m@x", 7, -60),
        sig("M", "m@x", 8, 59),
        b"merge\n\nbody".to_vec(),
    )
    .unwrap();
    let obj = store.get(&m).unwrap();
    let (kind, payload) = obj.encode();
    assert_eq!(kind, ObjectKind::Commit);
    let again = decode(kind, &payload).unwrap();
    assert_eq!(again.encode().1, payload);
    match again {
        Object::Commit(c) => {
            assert_eq!(c.parents.len(), 2);
            assert!(c.parents[0].same_as(&p1));
            assert!(c.parents[1].same_as(&p2));
            assert_eq!(c.message, b"merge\n\nbody".to_vec());
        }
        _ => panic!("not a commit"),
    }
}

#[test]
fn truncated_object_is_corrupt() {
    let mut store = ObjectStore::new();
    let id = store.put(&Object::Blob(b"Hello, Git!\n".to_vec()));
    let mut raw = store.raw(&id).unwrap();
    raw.pop();
    let mut damaged = ObjectStore::new();
    damaged.insert_raw(&id, &raw);
    assert_eq!(damaged.get(&id).err(), Some(StoreError::CorruptData));
}

#[test]
fn missing_object_is_not_found() {
    let store = ObjectStore::new();
    let id = id_from("670a245535fe6316eb2316c1103b1a88bb519334");
    assert!(!store.contains(&id));
    assert_eq!(store.get(&id).err(), Some(StoreError::NotFound));
}

#[test]
fn one_changed_byte_changes_the_fingerprint() {
    let a = fingerprint(ObjectKind::Blob, b"Hello, Git!\n");
    let b = fingerprint(ObjectKind::Blob, b"Hello, Git?\n");
    let c = fingerprint(ObjectKind::Tree, b"Hello, Git!\n");
    assert!(!a.same_as(&b));
    assert!(!a.same_as(&c));
    assert!(a.same_as(&fingerprint(ObjectKind::Blob, b"Hello, Git!\n")));
}

#[test]
fn blob_and_tree_round_trip() {
    let blob = Object::Blob(b"\0binary\xff".to_vec());
    let (k, p) = blob.encode();
    assert_eq!(p, b"\0binary\xff".to_vec());
    assert_eq!(decode(k, &p).unwrap().encode().1, p);

    let f = id_from("1111111111111111111111111111111111111111");
    let mut store = ObjectStore::new();
    let t = build_tree(
        &mut store,
        &vec![entry("x", FileMode::Executable, &f), entry("l", FileMode::Symlink, &f), entry("s", FileMode::Submodule, &f)],
    )
    .unwrap();
    let tree = store.get(&t).unwrap();
    let (k, p) = tree.encode();
    assert_eq!(k, ObjectKind::Tree);
    let again = decode(k, &p).unwrap();
    assert_eq!(again.encode().1, p);
    match again {
        Object::Tree(es) => {
            assert_eq!(es[0].name, b"l".to_vec());
            assert_eq!(es[0].mode, FileMode::Symlink);
            assert_eq!(es[1].mode, FileMode::Submodule);
            assert_eq!(es[2].mode, FileMode::Executable);
        }
        _ => panic!("not a tree"),
    }
}

#[test]
fn malformed_payloads_are_rejected() {
    assert_eq!(decode(ObjectKind::Tree, b"100644 a\0short").err(), Some(CodecError::Malformed));
    assert_eq!(decode(ObjectKind::Tree, b"777 a\0aaaaaaaaaaaaaaaaaaaa").err(), Some(CodecError::Malformed));
    assert_eq!(decode(ObjectKind::Commit, b"author x\n").err(), Some(CodecError::Malformed));
    assert_eq!(
        decode(ObjectKind::Commit, b"tree 4b825dc642cb6eb9a060e54bf8d69288fbee4904\n\nno people").err(),
        Some(CodecError::Malformed)
    );
}

#[test]
fn unsorted_tree_payload_is_rejected() {
    let mut p = Vec::new();
    p.extend_from_slice(b"100644 b\0");
    p.extend_from_slice(&[0x11; 20]);
    p.extend_from_slice(b"100644 a\0");
    p.extend_from_slice(&[0x22; 20]);
    assert_eq!(decode(ObjectKind::Tree, &p).err(), Some(CodecError::Malformed));
}

#[test]
fn hex_round_trip_and_object_path() {
    let id = id_from("670a245535fe6316eb2316c1103b1a88bb519334");
    assert_eq!(id.as_bytes()[0], 0x67);
    assert_eq!(hex(&id), "670a245535fe6316eb2316c1103b1a88bb519334");
    assert_eq!(
        String::from_utf8(object_path(&id)).unwrap(),
        "67/0a245535fe6316eb2316c1103b1a88bb519334"
    );
    assert!(ObjectId::from_hex(b"670A245535fe6316eb2316c1103b1a88bb519334").is_none());
    assert!(ObjectId::from_hex(b"670a").is_none());
    assert!(ObjectId::from_bytes(&[1, 2, 3]).is_none());
}

#[test]
fn compression_round_trips_and_detects_garbage() {
    let data = b"some bytes some bytes some bytes".to_vec();
    let z = compress(&data);
    assert_ne!(z, data);
    assert_eq!(decompress(&z).unwrap(), data);
    assert_eq!(decompress(b"not zlib").err(), Some(CorruptData::CorruptData));
}

#[test]
fn loose_header_is_split() {
    assert_eq!(split_header(b"blob 3\0abc"), Some((ObjectKind::Blob, 7)));
    assert_eq!(split_header(b"commit 0\0"), Some((ObjectKind::Commit, 9)));
    assert_eq!(split_header(b"blob 4\0abc"), None);
    assert_eq!(split_header(b"blob 03\0abc"), None);
    assert_eq!(split_header(b"tag 3\0abc"), None);
}

#[test]
fn init_plans_the_repository_layout() {
    let plan = init_git_repo(false).unwrap();
    assert_eq!(plan.dirs, vec![b".git".to_vec(), b".git/objects".to_vec(), b".git/refs".to_vec()]);
    assert_eq!(plan.head_path, b".git/HEAD".to_vec());
    assert_eq!(plan.head_contents, b"ref: refs/heads/master\n".to_vec());
}

#[test]
fn init_refuses_an_existing_repository() {
    assert_eq!(init_git_repo(true).err(), Some(InitError::AlreadyInitialized));
}

#[test]
fn commit_kind_and_signature_checks() {
    let c = Commit {
        tree: id_from("4b825dc642cb6eb9a060e54bf8d69288fbee4904"),
        parents: vec![],
        author: sig("A", "a@x", 0, -5999),
        committer: sig("A", "a@x", 18446744073709551615, 5999),
        message: vec![],
    };
    let o = Object::Commit(c);
    assert_eq!(o.kind(), ObjectKind::Commit);
    let (k, p) = o.encode();
    let text = String::from_utf8(p.clone()).unwrap();
    assert!(text.contains("author A <a@x> 0 -9959\n"));
    assert!(text.contains("committer A <a@x> 18446744073709551615 +9959\n"));
    assert_eq!(decode(k, &p).unwrap().encode().1, p);
}

#[test]
fn damaged_header_and_bad_payload_are_told_apart() {
    let id = id_from("1111111111111111111111111111111111111111");
    let mut store = ObjectStore::new();
    store.insert_raw(&id, &compress(b"blob 9\0abc"));
    assert_eq!(store.get(&id).err(), Some(StoreError::CorruptData));

    let other = fingerprint(ObjectKind::Tree, b"abc");
    store.insert_raw(&other, &compress(b"tree 3\0abc"));
    assert_eq!(store.get(&other).err(), Some(StoreError::Malformed));
}

#[test]
fn content_under_a_foreign_identifier_is_corrupt() {
    let wrong = id_from("2222222222222222222222222222222222222222");
    let mut store = ObjectStore::new();
    store.insert_raw(&wrong, &compress(b"blob 3\0abc"));
    assert_eq!(store.get(&wrong).err(), Some(StoreError::CorruptData));
    let right = fingerprint(ObjectKind::Blob, b"abc");
    store.insert_raw(&right, &compress(b"blob 3\0abc"));
    assert_eq!(blob_bytes(&store.get(&right).unwrap()), b"abc".to_vec());
}

#[test]
fn insert_raw_never_overwrites() {
    let mut store = ObjectStore::new();
    let id = store.put(&Object::Blob(b"first".to_vec()));
    let before = store.raw(&id).unwrap();
    store.insert_raw(&id, b"something else");
    assert_eq!(store.raw(&id).unwrap(), before);
}
