//! Listings that are kept.

use rust_im::mount::dir_cache::{CachedFs, DirCache};
use rust_im::mount::error::FsError;
use rust_im::mount::memfs::{MemFs, NodeKind};


fn cached_fs() -> CachedFs {
    let mut fs = MemFs::new();
    fs.mkdir("/contacts").unwrap();
    fs.mkdir("/history").unwrap();
    fs.mkdir("/files").unwrap();
    fs.write_file("/contacts/alice.txt", b"alice").unwrap();
    fs.write_file("/history/day1.log", b"day1").unwrap();
    fs.write_file("/files/a.bin", b"\x01").unwrap();
    CachedFs::new(fs, 2)
}

#[test]
fn second_read_hits_the_cache() {
    let mut fs = cached_fs();
    fs.read_dir("/contacts").unwrap();
    fs.read_dir("/contacts").unwrap();
    let (hits, misses) = fs.cache_stats();
    assert_eq!((hits, misses), (1, 1), "第二次列举必须命中");
}

#[test]
fn lru_evicts_the_coldest_directory() {
    let mut fs = cached_fs();
    fs.read_dir("/contacts").unwrap();
    fs.read_dir("/history").unwrap();
    fs.read_dir("/contacts").unwrap();
    fs.read_dir("/files").unwrap();
    fs.read_dir("/contacts").unwrap();
    let (hits, misses) = fs.cache_stats();
    assert_eq!(misses, 3, "history 被踢后再列举才 miss");
    assert!(hits >= 2, "contacts 两次热读都命中");
}

#[test]
fn write_invalidates_the_parent_listing() {
    let mut fs = cached_fs();
    fs.read_dir("/contacts").unwrap();
    fs.write_file("/contacts/bob.txt", b"bob").unwrap();
    let (before_hits, before_misses) = fs.cache_stats();
    fs.read_dir("/contacts").unwrap();
    let (hits, misses) = fs.cache_stats();
    assert_eq!(misses, before_misses + 1, "写之后父目录的缓存必须已失效");
    assert_eq!(hits, before_hits);
    let entries = fs.read_dir("/contacts").unwrap();
    assert!(entries.iter().any(|e| e.name == "bob.txt"));
}

#[test]
fn failed_write_keeps_cache_intact() {
    let mut fs = cached_fs();
    fs.read_dir("/history").unwrap();
    let result = fs.write_file("/nope/x.txt", b"x");
    assert!(result.is_err());
    fs.read_dir("/history").unwrap();
    let (hits, _misses) = fs.cache_stats();
    assert_eq!(hits, 1, "失败的写不该把缓存打穿");
}

#[test]
fn remove_and_mkdir_also_invalidate() {
    let mut fs = cached_fs();
    fs.read_dir("/files").unwrap();
    fs.remove_file("/files/a.bin").unwrap();
    fs.read_dir("/files").unwrap();
    assert_eq!(fs.lookup("/files").unwrap().children, 0);

    fs.read_dir("/history").unwrap();
    fs.mkdir("/history/alice").unwrap();
    fs.read_dir("/history").unwrap();
    let entries = fs.read_dir("/history").unwrap();
    assert!(entries.iter().any(|e| e.kind == NodeKind::Directory && e.name == "alice"));
}

#[test]
fn errors_are_not_cached() {
    let mut fs = cached_fs();
    assert!(fs.read_dir("/ghost").is_err());
    let (hits, misses) = fs.cache_stats();
    assert_eq!((hits, misses), (0, 1), "错误也计一次 miss");
    fs.mkdir("/ghost").unwrap();
    let entries = fs.read_dir("/ghost").unwrap();
    assert!(entries.is_empty());
}

/// A listing that was kept is the listing that is there, and hits and misses are
/// counted.
#[test]
fn kept_listing_is_counted() {
    let mut cache = DirCache::new(4);
    assert_eq!((cache.hits(), cache.misses()), (0, 0));
    let mut fs = MemFs::new();
    fs.mkdir("/a").unwrap();
    let first = cache.read_dir(&fs, "/").unwrap();
    let second = cache.read_dir(&fs, "/").unwrap();
    assert_eq!(first, second);
    assert_eq!((cache.hits(), cache.misses()), (1, 1));
    cache.invalidate("/");
    cache.read_dir(&fs, "/").unwrap();
    assert_eq!((cache.hits(), cache.misses()), (1, 2));
    cache.invalidate_all();
    cache.read_dir(&fs, "/").unwrap();
    assert_eq!((cache.hits(), cache.misses()), (1, 3));
}

/// No spelling of a path gets a stale listing.
#[test]
fn every_spelling_is_fresh() {
    let mut fs = cached_fs();
    assert_eq!(fs.read_dir("/contacts/").unwrap().len(), 1);
    fs.write_file("/contacts/b", b"b").unwrap();
    let names = |fs: &mut CachedFs, path: &str| -> Vec<String> {
        fs.read_dir(path).unwrap().iter().map(|e| e.name.clone()).collect()
    };
    assert_eq!(names(&mut fs, "/contacts/"), vec!["alice.txt", "b"]);
    fs.write_file("/contacts//c", b"c").unwrap();
    assert_eq!(names(&mut fs, "/contacts"), vec!["alice.txt", "b", "c"]);
    assert_eq!(names(&mut fs, "contacts"), vec!["alice.txt", "b", "c"]);
    assert_eq!(fs.cache_stats(), (1, 3));
    fs.mkdir("top").unwrap();
    assert_eq!(fs.read_dir("").unwrap().len(), 4);
    fs.remove_file("//contacts//b/").unwrap();
    assert_eq!(names(&mut fs, "/contacts"), vec!["alice.txt", "c"]);
}

/// An error speaks of the path as it was spelled.
#[test]
fn error_keeps_the_spelling() {
    let mut fs = cached_fs();
    let error = fs.read_dir("//nowhere/").unwrap_err();
    assert_eq!(error, FsError::NotFound { path: "//nowhere/".to_string() });
    assert_eq!(fs.cache_stats(), (0, 1));
    assert!(fs.read_dir("//nowhere/").is_err());
    assert_eq!(fs.cache_stats(), (0, 2));
}
