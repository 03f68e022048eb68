//! A cache of directory listings in front of the file system, and the two
//! bound together so that every change drops the listing it outdates.

use std::sync::Arc;
use vstd::prelude::*;
use crate::mount::error::{FsError, FsErrorModel};
use crate::mount::lru::{
    LruCache, at_key, drop_key, has_key, key_index, keys_distinct, law_removed_is_gone,
    law_stored_value_is_found, lemma_key_index, store, touch,
};
use crate::mount::memfs::{
    Attr, DirEntry, DirEntryModel, FsModel, FsOp, MemFs, ROOT_INO, WalkFail, after_op, after_ops,
    changed, fs_wf, law_listed_is_found, law_other_listings_are_untouched,
    law_other_lookups_are_untouched, law_read_your_write, lemma_after_op, lemma_changed,
    lemma_parent_facts, lemma_walk_append, lookup_model, mkdir_model, op_allowed, op_path,
    op_succeeds, parent_of, read_dir_model, read_model, remove_model, resolve, starts_with, walk,
    write_model,
};
use crate::mount::path::{
    canonical, canonical_form, components, law_extra_slashes_do_not_count, law_plain_spelling,
    law_slash_separates, lemma_single_component, plain, plain_path, spell_path, split_path, texts,
};

verus! {

/// A shared directory listing.
pub type Listing = Arc<Vec<DirEntry>>;

/// What a listing says.
pub open spec fn listing_model(l: Listing) -> Seq<DirEntryModel> {
    l@.map_values(|e: DirEntry| e@)
}

/// `Arc::clone`: another handle on the same listing.
#[verifier::external_body]
fn share(l: &Listing) -> (r: Listing)
    ensures
        r == *l,
{
    Arc::clone(l)
}

/// A bounded cache of listings, by the spelling of their paths.
pub struct DirCache {
    cache: LruCache<String, Listing>,
    hits: u64,
    misses: u64,
}

/// What a [`DirCache`] holds.
#[verifier::ext_equal]
pub struct DirCacheModel {
    /// The listings kept, the most recently used one first.
    pub entries: Seq<(Seq<char>, Listing)>,
    /// The largest number of listings kept.
    pub limit: nat,
    /// The number of listings found in the cache.
    pub hits: u64,
    /// The number of listings not found in the cache.
    pub misses: u64,
}

impl View for DirCache {
    type V = DirCacheModel;

    closed spec fn view(&self) -> DirCacheModel {
        DirCacheModel {
            entries: self.cache@,
            limit: self.cache.limit(),
            hits: self.hits,
            misses: self.misses,
        }
    }
}

/// No path is kept twice, and no more of them than the limit.
pub open spec fn cache_sound(c: DirCacheModel) -> bool {
    keys_distinct(c.entries) && c.entries.len() <= c.limit
}

/// What a reader of a listing is told.
pub open spec fn told(r: Result<Listing, FsError>) -> Result<Listing, FsErrorModel> {
    match r {
        Ok(l) => Ok(l),
        Err(e) => Err(e@),
    }
}

/// What a reader of a listing is told, as the file system would say it.
pub open spec fn told_model(r: Result<Listing, FsErrorModel>) -> Result<
    Seq<DirEntryModel>,
    FsErrorModel,
> {
    match r {
        Ok(l) => Ok(listing_model(l)),
        Err(e) => Err(e),
    }
}

/// A listing of `path` is read through the cache, where it is kept under `key`:
/// one that is kept is handed out and counts as found; any other comes from the
/// file system, counts as not found and is kept, unless it is an error.
pub open spec fn read_step(
    before: DirCacheModel,
    fs: FsModel,
    key: Seq<char>,
    path: Seq<char>,
    r: Result<Listing, FsErrorModel>,
    after: DirCacheModel,
) -> bool {
    if has_key(before.entries, key) {
        &&& r == Ok::<Listing, FsErrorModel>(before.entries[key_index(before.entries, key)].1)
        &&& after == (DirCacheModel {
            entries: touch(before.entries, key),
            hits: (before.hits + 1) as u64,
            ..before
        })
    } else {
        &&& read_dir_model(fs, path, told_model(r))
        &&& after == (DirCacheModel {
            entries: match r {
                Ok(l) => store(before.entries, before.limit, key, l).0,
                Err(_) => before.entries,
            },
            misses: (before.misses + 1) as u64,
            ..before
        })
    }
}

/// A listing that was read is found in the cache when it is read again, whatever
/// the file system holds by then; where there was none, the file system is asked
/// again.
pub proof fn law_second_read_is_found(
    first: DirCacheModel,
    second: DirCacheModel,
    third: DirCacheModel,
    fs: FsModel,
    later: FsModel,
    key: Seq<char>,
    path: Seq<char>,
    r: Result<Listing, FsErrorModel>,
    again: Result<Listing, FsErrorModel>,
)
    requires
        cache_sound(first),
        first.limit > 0,
        first.hits + 1 < u64::MAX,
        first.misses + 1 < u64::MAX,
        read_step(first, fs, key, path, r, second),
        read_step(second, later, key, path, again, third),
    ensures
        r is Ok ==> again == r && third.hits == second.hits + 1 && third.misses == second.misses,
        r is Err ==> {
            &&& read_dir_model(later, path, told_model(again))
            &&& third.hits == second.hits
            &&& third.misses == second.misses + 1
        },
{
    lemma_read_step_sound(first, fs, key, path, r, second);
    if has_key(first.entries, key) {
        let p = key_index(first.entries, key);
        assert(at_key(first.entries, key, p));
        assert(at_key(second.entries, key, 0));
        lemma_key_index(second.entries, key, 0);
    } else if let Ok(l) = r {
        law_stored_value_is_found(first.entries, first.limit, key, l);
        lemma_key_index(second.entries, key, 0);
    }
}

/// Reading keeps the cache sound.
pub proof fn lemma_read_step_sound(
    before: DirCacheModel,
    fs: FsModel,
    key: Seq<char>,
    path: Seq<char>,
    r: Result<Listing, FsErrorModel>,
    after: DirCacheModel,
)
    requires
        cache_sound(before),
        read_step(before, fs, key, path, r, after),
    ensures
        cache_sound(after),
{
    let s = before.entries;
    let t = after.entries;
    if has_key(s, key) {
        let p = key_index(s, key);
        assert(at_key(s, key, p));
        assert forall|i: int, j: int| 0 <= i < j < t.len() implies (#[trigger] t[i]).0 != (
        #[trigger] t[j]).0 by {
            let a = if i == 0 {
                p
            } else if i - 1 < p {
                i - 1
            } else {
                i
            };
            let b = if j - 1 < p {
                j - 1
            } else {
                j
            };
            assert(t[i] == s[a] && t[j] == s[b]);
            if a < b {
                assert(s[a].0 != s[b].0);
            } else {
                assert(s[b].0 != s[a].0);
            }
        }
    } else if let Ok(l) = r {
        let grown = seq![(key, l)] + s;
        assert forall|i: int, j: int| 0 <= i < j < t.len() implies (#[trigger] t[i]).0 != (
        #[trigger] t[j]).0 by {
            assert(t[i] == grown[i] && t[j] == s[j - 1]);
            if i == 0 {
                assert(!at_key(s, key, j - 1));
            } else {
                assert(t[i] == s[i - 1]);
            }
        }
    }
}

impl DirCache {
    /// The cache within is sound.
    pub closed spec fn wf(&self) -> bool {
        self.cache.wf()
    }

    /// What holds between calls.
    pub proof fn law_bounded(&self)
        requires
            self.wf(),
        ensures
            cache_sound(self@),
    {
        self.cache.law_bounded();
    }

    /// An empty cache.
    #[must_use]
    pub fn new(capacity: usize) -> (r: Self)
        ensures
            r.wf(),
            r@ == (DirCacheModel {
                entries: Seq::empty(),
                limit: capacity as nat,
                hits: 0,
                misses: 0,
            }),
    {
        DirCache { cache: LruCache::new(capacity), hits: 0, misses: 0 }
    }

    /// How many listings were found in the cache.
    #[must_use]
    pub fn hits(&self) -> (n: u64)
        ensures
            n == self@.hits,
    {
        self.hits
    }

    /// How many listings were not.
    #[must_use]
    pub fn misses(&self) -> (n: u64)
        ensures
            n == self@.misses,
    {
        self.misses
    }

    /// The listing of a path: from the cache, or from the file system and then
    /// into the cache. Errors are not kept.
    pub fn read_dir(&mut self, fs: &MemFs, path: &str) -> (r: Result<Listing, FsError>)
        requires
            old(self).wf(),
            fs.wf(),
            old(self)@.hits < u64::MAX,
            old(self)@.misses < u64::MAX,
        ensures
            final(self).wf(),
            read_step(old(self)@, fs@, path@, path@, told(r), final(self)@),
    {
        let key = path.to_owned();
        self.read_under(fs, key, path)
    }

    /// The listing of a path that is kept under a key.
    fn read_under(&mut self, fs: &MemFs, key: String, path: &str) -> (r: Result<Listing, FsError>)
        requires
            old(self).wf(),
            fs.wf(),
            old(self)@.hits < u64::MAX,
            old(self)@.misses < u64::MAX,
        ensures
            final(self).wf(),
            read_step(old(self)@, fs@, key@, path@, told(r), final(self)@),
    {
        let mut found: Option<Listing> = None;
        if let Some(l) = self.cache.get(&key) {
            found = Some(share(l));
        }
        if let Some(l) = found {
            self.hits = self.hits + 1;
            return Ok(l);
        }
        self.misses = self.misses + 1;
        match fs.read_dir(path) {
            Ok(list) => {
                let l: Listing = Arc::new(list);
                let _ = self.cache.put(key, share(&l));
                Ok(l)
            },
            Err(e) => Err(e),
        }
    }

    /// Drops the listing kept under this spelling of a path.
    pub fn invalidate(&mut self, path: &str)
        requires
            old(self).wf(),
        ensures
            final(self).wf(),
            final(self)@ == (DirCacheModel {
                entries: drop_key(old(self)@.entries, path@),
                ..old(self)@
            }),
    {
        let key = path.to_owned();
        let _ = self.cache.remove(&key);
    }

    /// Drops every listing.
    pub fn invalidate_all(&mut self)
        requires
            old(self).wf(),
        ensures
            final(self).wf(),
            final(self)@ == (DirCacheModel { entries: Seq::empty(), ..old(self)@ }),
    {
        self.cache.clear();
    }
}

/// A directory that has a listing does not lie behind a place where a change
/// went well.
proof fn lemma_listed_not_behind(
    fs: FsModel,
    g: FsModel,
    path: Seq<char>,
    key: Seq<char>,
    list: Seq<DirEntryModel>,
)
    requires
        fs_wf(fs),
        parent_of(fs, path) is Ok,
        changed(fs, g, path),
        read_dir_model(fs, key, Ok(list)),
    ensures
        !starts_with(components(key), components(path)),
{
    lemma_parent_facts(fs, path);
    let c = components(path);
    let k = components(key);
    if starts_with(k, c) {
        let t = k.skip(c.len() as int);
        assert(c + t =~= k);
        lemma_walk_append(fs, ROOT_INO, c, t);
        if let Ok(i) = walk(fs, ROOT_INO, c) {
            assert(resolve(fs, path) == Ok::<u64, FsErrorModel>(i));
            assert(fs.nodes[i].kind is File);
            if t.len() == 0 {
                assert(walk(fs, i, t) == Ok::<u64, WalkFail>(i));
            }
        }
    }
}

// ---------------------------------------------------------------------------
// The file system behind its cache
// ---------------------------------------------------------------------------

/// A file system and the cache of its listings. A listing is kept under the plain
/// spelling of its path, so that all spellings share it.
pub struct CachedFs {
    fs: MemFs,
    dir_cache: DirCache,
}

/// What a [`CachedFs`] holds.
#[verifier::ext_equal]
pub struct CachedModel {
    /// The file system behind the cache.
    pub tree: FsModel,
    /// The cache.
    pub cache: DirCacheModel,
}

impl View for CachedFs {
    type V = CachedModel;

    closed spec fn view(&self) -> CachedModel {
        CachedModel { tree: self.fs@, cache: self.dir_cache@ }
    }
}

/// The key under which the listing of a path is kept.
pub open spec fn key_of(path: Seq<char>) -> Seq<char> {
    canonical_form(components(path))
}

/// The key under which the listing is kept that a path's last name belongs to.
pub open spec fn parent_key(path: Seq<char>) -> Seq<char> {
    canonical_form(components(path).drop_last())
}

/// Every listing kept is the listing that the file system would give.
pub open spec fn listings_fresh(fs: FsModel, entries: Seq<(Seq<char>, Listing)>) -> bool {
    forall|i: int|
        0 <= i < entries.len() ==> canonical((#[trigger] entries[i]).0) && read_dir_model(
            fs,
            entries[i].0,
            Ok(listing_model(entries[i].1)),
        )
}

/// The file system is changed at a path, or not, and a change drops the listing
/// that it outdates.
pub open spec fn change_step(
    before: CachedModel,
    path: Seq<char>,
    went_well: bool,
    tree: FsModel,
    after: CachedModel,
) -> bool {
    &&& after.tree == tree
    &&& after.cache == if went_well {
        DirCacheModel {
            entries: drop_key(before.cache.entries, parent_key(path)),
            ..before.cache
        }
    } else {
        before.cache
    }
}

proof fn lemma_fresh_after_change(
    fs: FsModel,
    g: FsModel,
    path: Seq<char>,
    entries: Seq<(Seq<char>, Listing)>,
)
    requires
        fs_wf(fs),
        changed(fs, g, path),
        keys_distinct(entries),
        listings_fresh(fs, entries),
    ensures
        listings_fresh(g, drop_key(entries, parent_key(path))),
{
    lemma_changed(fs, g, path);
    let key = parent_key(path);
    let rest = drop_key(entries, key);
    assert forall|i: int| 0 <= i < rest.len() implies canonical((#[trigger] rest[i]).0)
        && read_dir_model(g, rest[i].0, Ok(listing_model(rest[i].1))) by {
        let at = key_index(entries, key);
        let o = if has_key(entries, key) && i >= at {
            i + 1
        } else {
            i
        };
        if has_key(entries, key) {
            assert(at_key(entries, key, at));
        }
        assert(rest[i] == entries[o]);
        let k = entries[o].0;
        let r = Ok::<Seq<DirEntryModel>, FsErrorModel>(listing_model(entries[o].1));
        assert(read_dir_model(fs, k, r));
        lemma_listed_not_behind(fs, g, path, k, listing_model(entries[o].1));
        if components(k) == components(path).drop_last() {
            assert(k == key);
            assert(at_key(entries, key, o));
            if o < at {
                assert(entries[o].0 != entries[at].0);
            } else {
                assert(entries[at].0 != entries[o].0);
            }
        }
        law_other_listings_are_untouched(fs, g, path, k, r);
    }
}

proof fn lemma_fresh_after_read(
    fs: FsModel,
    before: DirCacheModel,
    after: DirCacheModel,
    path: Seq<char>,
    r: Result<Listing, FsErrorModel>,
)
    requires
        listings_fresh(fs, before.entries),
        before.entries.len() <= before.limit,
        read_step(before, fs, key_of(path), path, r, after),
    ensures
        listings_fresh(fs, after.entries),
        read_dir_model(fs, path, told_model(r)),
{
    let key = key_of(path);
    let s = before.entries;
    let t = after.entries;
    law_plain_spelling(path);
    assert(resolve(fs, key) is Ok == resolve(fs, path) is Ok);
    if has_key(s, key) {
        let p = key_index(s, key);
        assert(at_key(s, key, p));
        assert(canonical(s[p].0));
        assert forall|i: int| 0 <= i < t.len() implies canonical((#[trigger] t[i]).0)
            && read_dir_model(fs, t[i].0, Ok(listing_model(t[i].1))) by {
            let o = if i == 0 {
                p
            } else if i - 1 < p {
                i - 1
            } else {
                i
            };
            assert(t[i] == s[o]);
        }
    } else if let Ok(l) = r {
        let grown = seq![(key, l)] + s;
        assert forall|i: int| 0 <= i < t.len() implies canonical((#[trigger] t[i]).0)
            && read_dir_model(fs, t[i].0, Ok(listing_model(t[i].1))) by {
            assert(t[i] == grown[i]);
            if i > 0 {
                assert(grown[i] == s[i - 1]);
            }
        }
    }
}

/// What is written to a directory is listed at once. If a write to a name in
/// directory `dir` went well, the listing of the directory is not in the cache any
/// more, the next reader is told of the name, and every other listing stays where
/// it was. If it did not, nothing is written and nothing is dropped. The counts
/// are what they were either way.
pub proof fn law_written_name_is_listed(
    before: CachedModel,
    dir: Seq<char>,
    name: Seq<char>,
    path: Seq<char>,
    data: Seq<u8>,
    after: CachedModel,
    r: Result<Listing, FsErrorModel>,
    next: DirCacheModel,
)
    requires
        fs_wf(before.tree),
        before.tree.next < u64::MAX,
        cache_sound(before.cache),
        before.cache.misses < u64::MAX,
        plain(name),
        path == dir + seq!['/'] + name || (dir == seq!['/'] && path == seq!['/'] + name),
        change_step(
            before,
            path,
            write_model(before.tree, path, data).0 is Ok,
            write_model(before.tree, path, data).1,
            after,
        ),
        read_step(after.cache, after.tree, key_of(dir), dir, r, next),
    ensures
        after.cache.hits == before.cache.hits,
        after.cache.misses == before.cache.misses,
        write_model(before.tree, path, data).0 is Err ==> after == before,
        write_model(before.tree, path, data).0 is Ok ==> {
            &&& !has_key(after.cache.entries, key_of(dir))
            &&& next.hits == before.cache.hits
            &&& next.misses == before.cache.misses + 1
            &&& r is Ok
            &&& exists|k: int|
                0 <= k < listing_model(r->Ok_0).len() && (#[trigger] listing_model(
                    r->Ok_0,
                )[k]).name == name
            &&& forall|key: Seq<char>|
                key != key_of(dir) ==> (#[trigger] has_key(after.cache.entries, key) == has_key(
                    before.cache.entries,
                    key,
                )) && (has_key(before.cache.entries, key)
                    ==> after.cache.entries[key_index(after.cache.entries, key)]
                    == before.cache.entries[key_index(before.cache.entries, key)])
        },
{
    let fs = before.tree;
    lemma_single_component(name);
    law_slash_separates(dir, name);
    if path == seq!['/'] + name {
        law_extra_slashes_do_not_count(name, name);
        law_extra_slashes_do_not_count(Seq::<char>::empty(), name);
        assert(seq!['/'] + Seq::<char>::empty() =~= seq!['/']);
        if dir == seq!['/'] {
            assert(components(dir) =~= Seq::<Seq<char>>::empty());
        }
    }
    assert(components(path) =~= components(dir).push(name));
    assert(components(path).drop_last() =~= components(dir));
    if write_model(fs, path, data).0 is Ok {
        let g = after.tree;
        assert(changed(fs, g, path));
        lemma_changed(fs, g, path);
        lemma_parent_facts(fs, path);
        lemma_dropped(before.cache.entries, key_of(dir));
        let (d, _) = parent_of(fs, path)->Ok_0;
        if starts_with(components(dir), components(path)) {
            assert(false);
        }
        law_other_lookups_are_untouched(fs, g, path, dir);
        assert(resolve(fs, dir) == Ok::<u64, FsErrorModel>(d));
        law_read_your_write(fs, path, data, path);
        assert(resolve(g, path) is Ok);
        let again = dir + seq!['/'] + name;
        assert(resolve(g, again) is Ok);
        law_listed_is_found(g, dir, listing_model(r->Ok_0));
        assert(lookup_model(g, dir + seq!['/'] + name) is Ok);
    }
}

/// What a dropped key leaves.
proof fn lemma_dropped(entries: Seq<(Seq<char>, Listing)>, key: Seq<char>)
    requires
        keys_distinct(entries),
    ensures
        keys_distinct(drop_key(entries, key)),
        !has_key(drop_key(entries, key), key),
        forall|other: Seq<char>|
            other != key ==> (#[trigger] has_key(drop_key(entries, key), other) == has_key(
                entries,
                other,
            )) && (has_key(entries, other) ==> drop_key(entries, key)[key_index(
                drop_key(entries, key),
                other,
            )] == entries[key_index(entries, other)]),
{
    let rest = drop_key(entries, key);
    if has_key(entries, key) {
        let p = key_index(entries, key);
        assert(at_key(entries, key, p));
        assert forall|i: int, j: int| 0 <= i < j < rest.len() implies (#[trigger] rest[i]).0 != (
        #[trigger] rest[j]).0 by {
            let a = if i < p {
                i
            } else {
                i + 1
            };
            let b = if j < p {
                j
            } else {
                j + 1
            };
            assert(rest[i] == entries[a] && rest[j] == entries[b]);
        }
        if has_key(rest, key) {
            let i = key_index(rest, key);
            assert(at_key(rest, key, i));
            let a = if i < p {
                i
            } else {
                i + 1
            };
            assert(rest[i] == entries[a]);
            if a < p {
                assert(entries[a].0 != entries[p].0);
            } else {
                assert(entries[p].0 != entries[a].0);
            }
        }
        assert forall|other: Seq<char>| other != key implies (#[trigger] has_key(rest, other)
            == has_key(entries, other)) && (has_key(entries, other) ==> rest[key_index(
            rest,
            other,
        )] == entries[key_index(entries, other)]) by {
            if has_key(entries, other) {
                let a = key_index(entries, other);
                assert(at_key(entries, other, a));
                let i = if a < p {
                    a
                } else {
                    a - 1
                };
                assert(rest[i] == entries[a]);
                assert(at_key(rest, other, i));
                lemma_key_index(rest, other, i);
            }
            if has_key(rest, other) {
                let i = key_index(rest, other);
                assert(at_key(rest, other, i));
                let a = if i < p {
                    i
                } else {
                    i + 1
                };
                assert(rest[i] == entries[a]);
                assert(at_key(entries, other, a));
            }
        }
    }
}

/// A call that may be made of a file system behind its cache.
pub enum CachedOp {
    /// A change is asked for.
    Change(FsOp),
    /// The listing of a path is read, and this is told.
    List(Seq<char>, Result<Listing, FsErrorModel>),
}

/// What one call does.
pub open spec fn cached_step(before: CachedModel, op: CachedOp, after: CachedModel) -> bool {
    match op {
        CachedOp::Change(op) => change_step(
            before,
            op_path(op),
            op_succeeds(before.tree, op),
            after_op(before.tree, op),
            after,
        ),
        CachedOp::List(path, r) => {
            &&& after.tree == before.tree
            &&& read_step(before.cache, before.tree, key_of(path), path, r, after.cache)
        },
    }
}

/// The changes among calls, in order.
pub open spec fn changes_of(ops: Seq<CachedOp>) -> Seq<FsOp>
    decreases ops.len(),
{
    if ops.len() == 0 {
        Seq::empty()
    } else {
        let most = changes_of(ops.drop_last());
        match ops.last() {
            CachedOp::Change(op) => most.push(op),
            CachedOp::List(_, _) => most,
        }
    }
}

proof fn lemma_cached_run(
    fs: FsModel,
    states: Seq<CachedModel>,
    ops: Seq<CachedOp>,
    k: int,
)
    requires
        fs_wf(fs),
        states.len() == ops.len() + 1,
        states[0].tree == fs,
        states[0].cache.entries.len() == 0,
        forall|i: int| 0 <= i < ops.len() ==> cached_step(states[i], #[trigger] ops[i], states[i + 1]),
        forall|i: int|
            0 <= i < ops.len() ==> ((#[trigger] ops[i]) matches CachedOp::Change(op) ==> op_allowed(
                states[i].tree,
                op,
            )),
        0 <= k <= ops.len(),
    ensures
        states[k].tree == after_ops(fs, changes_of(ops.take(k))),
        fs_wf(states[k].tree),
        cache_sound(states[k].cache),
        listings_fresh(states[k].tree, states[k].cache.entries),
    decreases k,
{
    if k == 0 {
        assert(ops.take(0) =~= Seq::<CachedOp>::empty());
    } else {
        lemma_cached_run(fs, states, ops, k - 1);
        let a = states[k - 1];
        let b = states[k];
        let op = ops[k - 1];
        assert(cached_step(a, op, states[k - 1 + 1]));
        assert(ops.take(k).drop_last() =~= ops.take(k - 1));
        match op {
            CachedOp::Change(c) => {
                let most = changes_of(ops.take(k - 1));
                assert(most.push(c).drop_last() =~= most);
                lemma_after_op(a.tree, c);
                lemma_dropped(a.cache.entries, parent_key(op_path(c)));
                if op_succeeds(a.tree, c) {
                    lemma_fresh_after_change(a.tree, b.tree, op_path(c), a.cache.entries);
                    if has_key(a.cache.entries, parent_key(op_path(c))) {
                        let p = key_index(a.cache.entries, parent_key(op_path(c)));
                        assert(at_key(a.cache.entries, parent_key(op_path(c)), p));
                    }
                }
            },
            CachedOp::List(path, r) => {
                lemma_read_step_sound(a.cache, a.tree, key_of(path), path, r, b.cache);
                lemma_fresh_after_read(a.tree, a.cache, b.cache, path, r);
            },
        }
    }
}

/// The cache cannot be told from the file system behind it: after any calls, in any
/// order, every reader is told what a file system without a cache would say that
/// went through the same changes.
pub proof fn law_cache_is_transparent(
    fs: FsModel,
    states: Seq<CachedModel>,
    ops: Seq<CachedOp>,
)
    requires
        fs_wf(fs),
        states.len() == ops.len() + 1,
        states[0].tree == fs,
        states[0].cache.entries.len() == 0,
        forall|i: int| 0 <= i < ops.len() ==> cached_step(states[i], #[trigger] ops[i], states[i + 1]),
        forall|i: int|
            0 <= i < ops.len() ==> ((#[trigger] ops[i]) matches CachedOp::Change(op) ==> op_allowed(
                states[i].tree,
                op,
            )),
    ensures
        forall|k: int|
            0 <= k < ops.len() ==> ((#[trigger] ops[k]) matches CachedOp::List(path, r)
                ==> read_dir_model(
                after_ops(fs, changes_of(ops.take(k))),
                path,
                told_model(r),
            )),
{
    assert forall|k: int| 0 <= k < ops.len() implies ((#[trigger] ops[k]) matches CachedOp::List(
        path,
        r,
    ) ==> read_dir_model(after_ops(fs, changes_of(ops.take(k))), path, told_model(r))) by {
        lemma_cached_run(fs, states, ops, k);
        assert(cached_step(states[k], ops[k], states[k + 1]));
        if let CachedOp::List(path, r) = ops[k] {
            lemma_fresh_after_read(states[k].tree, states[k].cache, states[k + 1].cache, path, r);
        }
    }
}

/// A change drops the listing of the directory that it happened in and no other, and a
/// change that did not go well drops none; neither counts as a reading.
pub proof fn law_change_drops_one_listing(
    before: CachedModel,
    op: FsOp,
    after: CachedModel,
    other: Seq<char>,
)
    requires
        cache_sound(before.cache),
        cached_step(before, CachedOp::Change(op), after),
    ensures
        after.cache.hits == before.cache.hits,
        after.cache.misses == before.cache.misses,
        after.cache.limit == before.cache.limit,
        after.tree == after_op(before.tree, op),
        op_succeeds(before.tree, op) ==> !has_key(
            after.cache.entries,
            canonical_form(components(op_path(op)).drop_last()),
        ),
        other != canonical_form(components(op_path(op)).drop_last()) || !op_succeeds(
            before.tree,
            op,
        ) ==> has_key(after.cache.entries, other) == has_key(before.cache.entries, other),
{
    let s = before.cache.entries;
    let t = after.cache.entries;
    let k = parent_key(op_path(op));
    if op_succeeds(before.tree, op) {
        law_removed_is_gone(s, before.cache.limit, k);
        if has_key(s, k) {
            let p = key_index(s, k);
            assert(at_key(s, k, p));
            if has_key(s, other) && other != k {
                let i = key_index(s, other);
                assert(at_key(s, other, i));
                if i < p {
                    assert(at_key(t, other, i));
                } else {
                    assert(at_key(t, other, i - 1));
                }
            }
            if has_key(t, other) {
                let i = key_index(t, other);
                assert(at_key(t, other, i));
                if i < p {
                    assert(at_key(s, other, i));
                } else {
                    assert(at_key(s, other, i + 1));
                }
            }
        }
    }
}

/// Every reading of a listing counts once: as found exactly if the listing was kept.
pub proof fn law_every_reading_counts_once(
    before: CachedModel,
    path: Seq<char>,
    r: Result<Listing, FsErrorModel>,
    after: CachedModel,
)
    requires
        before.cache.hits < u64::MAX,
        before.cache.misses < u64::MAX,
        cached_step(before, CachedOp::List(path, r), after),
    ensures
        after.tree == before.tree,
        after.cache.limit == before.cache.limit,
        has_key(before.cache.entries, canonical_form(components(path))) ==> after.cache.hits
            == before.cache.hits + 1 && after.cache.misses == before.cache.misses,
        !has_key(before.cache.entries, canonical_form(components(path))) ==> after.cache.hits
            == before.cache.hits && after.cache.misses == before.cache.misses + 1,
{
}

impl CachedFs {
    /// The parts are sound, and no listing kept is stale.
    pub closed spec fn wf(&self) -> bool {
        self.fs.wf() && self.dir_cache.wf() && self.fresh()
    }

    /// What the cache says is what the file system says.
    pub open spec fn fresh(&self) -> bool {
        listings_fresh(self@.tree, self@.cache.entries)
    }

    /// What holds between calls: the file system is a tree, the cache is bounded,
    /// and no listing in it is stale.
    pub proof fn law_no_listing_is_stale(&self)
        requires
            self.wf(),
        ensures
            fs_wf(self@.tree),
            cache_sound(self@.cache),
            self.fresh(),
    {
        self.fs.law_is_a_tree();
        self.dir_cache.law_bounded();
    }

    /// Puts an empty cache in front of a file system.
    #[must_use]
    pub fn new(fs: MemFs, dir_cache_capacity: usize) -> (r: Self)
        requires
            fs.wf(),
        ensures
            r.wf(),
            r.fresh(),
            r@ == (CachedModel {
                tree: fs@,
                cache: DirCacheModel {
                    entries: Seq::empty(),
                    limit: dir_cache_capacity as nat,
                    hits: 0,
                    misses: 0,
                },
            }),
    {
        CachedFs { fs, dir_cache: DirCache::new(dir_cache_capacity) }
    }

    /// How many listings were found in the cache, and how many were not.
    #[must_use]
    pub fn cache_stats(&self) -> (r: (u64, u64))
        ensures
            r == (self@.cache.hits, self@.cache.misses),
    {
        (self.dir_cache.hits(), self.dir_cache.misses())
    }

    /// The listing of a path, through the cache: the listing that the file system
    /// has, whether it was kept or not.
    pub fn read_dir(&mut self, path: &str) -> (r: Result<Listing, FsError>)
        requires
            old(self).wf(),
            old(self)@.cache.hits < u64::MAX,
            old(self)@.cache.misses < u64::MAX,
        ensures
            final(self).wf(),
            final(self).fresh(),
            final(self)@.tree == old(self)@.tree,
            read_step(
                old(self)@.cache,
                old(self)@.tree,
                key_of(path@),
                path@,
                told(r),
                final(self)@.cache,
            ),
            read_dir_model(old(self)@.tree, path@, told_model(told(r))),
    {
        let key = plain_path(path);
        let r = self.dir_cache.read_under(&self.fs, key, path);
        proof {
            old(self).dir_cache.law_bounded();
            lemma_fresh_after_read(
                old(self)@.tree,
                old(self)@.cache,
                self@.cache,
                path@,
                told(r),
            );
        }
        r
    }

    /// The bytes of the file at a path.
    pub fn read(&self, path: &str) -> (r: Result<&[u8], FsError>)
        requires
            self.wf(),
        ensures
            match read_model(self@.tree, path@) {
                Ok(data) => r is Ok && r->Ok_0@ == data,
                Err(e) => r is Err && r->Err_0@ == e,
            },
    {
        self.fs.read(path)
    }

    /// The attributes at a path.
    pub fn lookup(&self, path: &str) -> (r: Result<Attr, FsError>)
        requires
            self.wf(),
        ensures
            match lookup_model(self@.tree, path@) {
                Ok(a) => r == Ok::<Attr, FsError>(a),
                Err(e) => r is Err && r->Err_0@ == e,
            },
    {
        self.fs.lookup(path)
    }

    /// Makes a directory and drops the listing of its parent; a failure leaves
    /// the cache alone.
    pub fn mkdir(&mut self, path: &str) -> (r: Result<u64, FsError>)
        requires
            old(self).wf(),
            old(self)@.tree.next < u64::MAX,
        ensures
            final(self).wf(),
            final(self).fresh(),
            change_step(
                old(self)@,
                path@,
                r is Ok,
                mkdir_model(old(self)@.tree, path@).1,
                final(self)@,
            ),
            match mkdir_model(old(self)@.tree, path@).0 {
                Ok(i) => r == Ok::<u64, FsError>(i),
                Err(e) => r is Err && r->Err_0@ == e,
            },
    {
        proof {
            old(self).law_no_listing_is_stale();
        }
        match self.fs.mkdir(path) {
            Ok(ino) => {
                proof {
                    lemma_fresh_after_change(
                        old(self)@.tree,
                        self.fs@,
                        path@,
                        old(self)@.cache.entries,
                    );
                    lemma_changed(old(self)@.tree, self.fs@, path@);
                }
                self.invalidate_parent_of(path);
                Ok(ino)
            },
            Err(e) => Err(e),
        }
    }

    /// Writes a file and drops the listing of its parent; a failure leaves the
    /// cache alone.
    pub fn write_file(&mut self, path: &str, data: &[u8]) -> (r: Result<u64, FsError>)
        requires
            old(self).wf(),
            old(self)@.tree.next < u64::MAX,
        ensures
            final(self).wf(),
            final(self).fresh(),
            change_step(
                old(self)@,
                path@,
                r is Ok,
                write_model(old(self)@.tree, path@, data@).1,
                final(self)@,
            ),
            match write_model(old(self)@.tree, path@, data@).0 {
                Ok(i) => r == Ok::<u64, FsError>(i),
                Err(e) => r is Err && r->Err_0@ == e,
            },
    {
        proof {
            old(self).law_no_listing_is_stale();
        }
        match self.fs.write_file(path, data) {
            Ok(ino) => {
                proof {
                    assert(write_model(old(self)@.tree, path@, data@).0 is Ok);
                    lemma_fresh_after_change(
                        old(self)@.tree,
                        self.fs@,
                        path@,
                        old(self)@.cache.entries,
                    );
                    lemma_changed(old(self)@.tree, self.fs@, path@);
                }
                self.invalidate_parent_of(path);
                Ok(ino)
            },
            Err(e) => Err(e),
        }
    }

    /// Removes a file and drops the listing of its parent; a failure leaves the
    /// cache alone.
    pub fn remove_file(&mut self, path: &str) -> (r: Result<(), FsError>)
        requires
            old(self).wf(),
        ensures
            final(self).wf(),
            final(self).fresh(),
            change_step(
                old(self)@,
                path@,
                r is Ok,
                remove_model(old(self)@.tree, path@).1,
                final(self)@,
            ),
            match remove_model(old(self)@.tree, path@).0 {
                Ok(_) => r == Ok::<(), FsError>(()),
                Err(e) => r is Err && r->Err_0@ == e,
            },
    {
        proof {
            old(self).law_no_listing_is_stale();
        }
        match self.fs.remove_file(path) {
            Ok(_) => {
                proof {
                    lemma_fresh_after_change(
                        old(self)@.tree,
                        self.fs@,
                        path@,
                        old(self)@.cache.entries,
                    );
                    lemma_changed(old(self)@.tree, self.fs@, path@);
                }
                self.invalidate_parent_of(path);
                Ok(())
            },
            Err(e) => Err(e),
        }
    }

    /// Drops the listing that a path's last name belongs to.
    fn invalidate_parent_of(&mut self, path: &str)
        requires
            old(self).dir_cache.wf(),
            components(path@).len() > 0,
        ensures
            final(self).fs == old(self).fs,
            final(self).dir_cache.wf(),
            final(self).dir_cache@ == (DirCacheModel {
                entries: drop_key(old(self).dir_cache@.entries, parent_key(path@)),
                ..old(self).dir_cache@
            }),
    {
        let names = split_path(path);
        let n: usize = names.len();
        assert(texts(names@).take(n - 1) =~= texts(names@).drop_last());
        let dir = spell_path(&names, n - 1);
        self.dir_cache.invalidate(dir.as_str());
    }
}

} // verus!
