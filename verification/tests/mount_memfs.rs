//! A file system in memory.

use rust_im::mount::error::FsError;
use rust_im::mount::memfs::{Attr, MemFs, NodeKind};
use rust_im::mount::path::{plain_path, split_path};

fn sample_fs() -> MemFs {
    let mut fs = MemFs::new();
    fs.mkdir("/contacts").unwrap();
    fs.mkdir("/history").unwrap();
    fs.mkdir("/history/alice").unwrap();
    fs.write_file("/contacts/alice.txt", b"alice@example.com").unwrap();
    fs.write_file("/contacts/bob.txt", b"bob@example.com").unwrap();
    fs.write_file("/history/alice/2026-09-24.log", b"alice: hello").unwrap();
    fs
}

#[test]
fn root_is_an_empty_directory() {
    let fs = MemFs::new();
    assert_eq!(fs.lookup("/"), Ok(Attr { kind: NodeKind::Directory, size: 0, children: 0 }));
    assert_eq!(fs.read_dir("/"), Ok(Vec::new()));
}

#[test]
fn lookup_walks_nested_paths() {
    let fs = sample_fs();
    let attr = fs.lookup("/history/alice/2026-09-24.log").unwrap();
    assert_eq!(attr.kind, NodeKind::File);
    assert_eq!(attr.size, u64::try_from("alice: hello".len()).unwrap());

    assert_eq!(
        fs.lookup("/contacts/alice.txt/more"),
        Err(FsError::NotADirectory { path: "/contacts/alice.txt/more".into() }),
        "文件下面还有路径段：ENOTDIR"
    );
    assert_eq!(fs.lookup("/nope"), Err(FsError::NotFound { path: "/nope".into() }));
}

#[test]
fn read_dir_lists_in_lexicographic_order() {
    let fs = sample_fs();
    let entries = fs.read_dir("/contacts").unwrap();
    let names: Vec<&str> = entries.iter().map(|e| e.name.as_str()).collect();
    assert_eq!(names, vec!["alice.txt", "bob.txt"], "BTreeMap 保证字典序");
    assert_eq!(entries[0].kind, NodeKind::File);

    assert_eq!(
        fs.read_dir("/contacts/alice.txt"),
        Err(FsError::NotADirectory { path: "/contacts/alice.txt".into() }),
        "对文件 readdir：ENOTDIR"
    );
}

#[test]
fn read_file_and_isdir_error() {
    let fs = sample_fs();
    assert_eq!(fs.read("/contacts/alice.txt"), Ok(&b"alice@example.com"[..]));
    assert_eq!(
        fs.read("/contacts"),
        Err(FsError::IsADirectory { path: "/contacts".into() }),
        "对目录 read：EISDIR"
    );
}

#[test]
fn mkdir_rejects_duplicates_and_missing_parents() {
    let mut fs = sample_fs();
    assert_eq!(fs.mkdir("/contacts"), Err(FsError::AlreadyExists { path: "/contacts".into() }));
    assert_eq!(
        fs.mkdir("/deep/nested"),
        Err(FsError::NotFound { path: "/deep/nested".into() }),
        "不做 mkdir -p：父目录不存在要明说"
    );
    fs.mkdir("/contacts/group").unwrap();
    assert_eq!(fs.lookup("/contacts/group").unwrap().kind, NodeKind::Directory);
}

#[test]
fn write_file_creates_then_overwrites() {
    let mut fs = sample_fs();
    let ino_first = fs.write_file("/contacts/alice.txt", b"updated").unwrap();
    let ino_second = fs.write_file("/contacts/alice.txt", b"updated again").unwrap();
    assert_eq!(ino_first, ino_second, "覆写不该换 inode（真实 FS 覆写也不换）");
    assert_eq!(fs.read("/contacts/alice.txt"), Ok(&b"updated again"[..]));
    assert!(fs.write_file("/contacts", b"data").is_err());
}

#[test]
fn remove_file_frees_and_rejects_directories() {
    let mut fs = sample_fs();
    fs.remove_file("/contacts/bob.txt").unwrap();
    assert!(fs.lookup("/contacts/bob.txt").is_err());
    assert_eq!(fs.lookup("/contacts").unwrap().children, 1);
    assert_eq!(
        fs.remove_file("/contacts"),
        Err(FsError::IsADirectory { path: "/contacts".into() })
    );
}

#[test]
fn path_parsing_is_posix_lenient() {
    let mut fs = MemFs::new();
    fs.mkdir("/a").unwrap();
    fs.mkdir("//a//b/").unwrap();
    assert!(fs.lookup("/a/b").is_ok());
    assert!(fs.lookup("a/b").is_ok(), "开头的斜杠可有可无（语义层从根出发）");
}

/// What was written is read, and what was removed is gone.
#[test]
fn written_then_removed() {
    let mut fs = MemFs::default();
    fs.write_file("/note", b"one").unwrap();
    assert_eq!(fs.read("/note"), Ok(&b"one"[..]));
    fs.write_file("/other", b"two").unwrap();
    assert_eq!(fs.read("/note"), Ok(&b"one"[..]), "another file is untouched");
    fs.remove_file("/note").unwrap();
    assert_eq!(fs.read("/note"), Err(FsError::NotFound { path: "/note".into() }));
    assert_eq!(fs.remove_file("/note"), Err(FsError::NotFound { path: "/note".into() }));
    assert_eq!(fs.read_dir("/").unwrap().len(), 1);
}

/// The root cannot be made, written or removed.
#[test]
fn root_has_no_name() {
    let mut fs = MemFs::new();
    assert!(fs.mkdir("/").is_err());
    assert!(fs.write_file("//", b"x").is_err());
    assert!(fs.remove_file("").is_err());
}

/// A file is not a parent.
#[test]
fn file_is_not_a_parent() {
    let mut fs = sample_fs();
    assert_eq!(
        fs.write_file("/contacts/alice.txt/x", b"x"),
        Err(FsError::NotADirectory { path: "/contacts/alice.txt/x".into() })
    );
    assert_eq!(
        fs.write_file("/contacts", b"x"),
        Err(FsError::AlreadyExists { path: "/contacts".into() })
    );
}

#[test]
fn names_of_a_path() {
    assert_eq!(split_path("//a//b/"), vec!["a".to_string(), "b".to_string()]);
    assert_eq!(split_path("/"), Vec::<String>::new());
}

#[test]
fn error_texts() {
    assert_eq!(FsError::NotFound { path: "/a".into() }.to_text(), "路径不存在：/a");
    assert_eq!(FsError::NotADirectory { path: "/a".into() }.to_text(), "路径组件不是目录：/a");
    assert_eq!(FsError::IsADirectory { path: "/a".into() }.to_text(), "目标是目录：/a");
    assert_eq!(FsError::AlreadyExists { path: "/a".into() }.to_text(), "已存在：/a");
}

/// Whatever is listed is found under the directory's path and its name.
#[test]
fn listed_is_found() {
    let fs = sample_fs();
    for dir in ["/", "/contacts", "/history/"] {
        let list = fs.read_dir(dir).unwrap();
        assert_eq!(list.len(), fs.lookup(dir).unwrap().children);
        for entry in list {
            let attr = fs.lookup(&format!("{dir}/{}", entry.name)).unwrap();
            assert_eq!(attr.kind, entry.kind);
        }
    }
}

/// A file reads as it was last written, whatever happens elsewhere.
#[test]
fn last_write_is_read() {
    let mut fs = sample_fs();
    let first = fs.write_file("/history/alice/x", b"one").unwrap();
    fs.mkdir("/history/bob").unwrap();
    assert!(fs.mkdir("/history/alice/x").is_err());
    fs.write_file("/history//alice/x", b"two").unwrap();
    let before = fs.lookup("/history").unwrap();
    assert!(fs.write_file("/history/alice", b"no").is_err());
    fs.remove_file("/contacts/bob.txt").unwrap();
    assert_eq!(fs.lookup("/history").unwrap(), before);
    assert_eq!(fs.read("/history/alice/x").unwrap(), b"two");
    fs.remove_file("/history/alice/x").unwrap();
    let second = fs.write_file("/history/alice/x", b"three").unwrap();
    assert!(second > first);
}

/// The plain spelling of a path.
#[test]
fn plain_spelling() {
    assert_eq!(plain_path("//a//b/"), "/a/b");
    assert_eq!(plain_path("a"), "/a");
    assert_eq!(plain_path("//"), "/");
    assert_eq!(plain_path(""), "/");
}
