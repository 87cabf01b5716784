//! Thumbnail cache: which images have a thumbnail, which are being decoded,
//! and which failed; bounded in size, evicting finished entries oldest first.

use vstd::prelude::*;
use crate::entry::FsEntry;
use crate::paths::{
    components_of, extension, extension_of, file_name, last_component, last_index_of,
    lemma_last_index_append, path_components, same_components, same_path,
};
use crate::text::{
    ascii_lower, ascii_lower_seq, ascii_lowercase, chars_of, lemma_split_on_absent,
    lemma_split_on_concat, same_chars, split_on, views,
};

verus! {

/// At most this many records are kept, unless more are being decoded.
pub const CACHE_CAPACITY: usize = 512;

/// Image extensions that get a thumbnail and a preview.
pub open spec fn supported_extensions() -> Seq<Seq<char>> {
    seq![
        "png"@,
        "jpg"@,
        "jpeg"@,
        "jfif"@,
        "gif"@,
        "bmp"@,
        "webp"@,
        "ico"@,
        "tiff"@,
        "tif"@,
        "qoi"@,
        "tga"@,
    ]
}

/// A path is a supported image when its extension, ASCII-lowercased, is one
/// of `supported_extensions`.
pub open spec fn is_supported_image_spec(path: Seq<char>) -> bool {
    match extension(path) {
        Some(e) => supported_extensions().contains(ascii_lower_seq(e)),
        None => false,
    }
}

/// Whether `path` names an image format that is previewed.
pub fn is_supported_image(path: &str) -> (b: bool)
    ensures
        b == is_supported_image_spec(path@),
{
    let p = chars_of(path);
    let e = match extension_of(&p) {
        Some(e) => e,
        None => return false,
    };
    let lower = ascii_lowercase(&e);
    let items: [&str; 12] = [
        "png",
        "jpg",
        "jpeg",
        "jfif",
        "gif",
        "bmp",
        "webp",
        "ico",
        "tiff",
        "tif",
        "qoi",
        "tga",
    ];
    assert(items@.map_values(|s: &str| s@) =~= supported_extensions());
    for i in 0..12
        invariant
            items@.len() == 12,
            extension(path@) == Some(e@),
            lower@ == ascii_lower_seq(e@),
            items@.map_values(|s: &str| s@) == supported_extensions(),
            forall|k: int| 0 <= k < i ==> supported_extensions()[k] != lower@,
    {
        let candidate = chars_of(items[i]);
        assert(supported_extensions()[i as int] == items@[i as int]@);
        if same_chars(&lower, &candidate) {
            assert(supported_extensions()[i as int] == lower@);
            assert(supported_extensions().contains(lower@));
            return true;
        }
    }
    false
}

/// Where a thumbnail stands.
pub enum ThumbState<T> {
    /// Being decoded.
    Pending,
    Ready(T),
    Failed,
}

/// One cached file: its path, the modification time the record is for, and
/// the state of its thumbnail. The path's components are kept beside it, to
/// compare paths as `Path` does.
pub struct Record<T> {
    path: String,
    key: Vec<Vec<char>>,
    modified: Option<i128>,
    state: ThumbState<T>,
}

/// The model of a [`Record`].
pub struct RecordView<T> {
    pub path: Seq<char>,
    pub modified: Option<i128>,
    pub state: ThumbState<T>,
}

impl<T> Record<T> {
    #[verifier::type_invariant]
    spec fn key_is_components(self) -> bool {
        views(self.key@) == path_components(self.path@)
    }

    pub closed spec fn view(&self) -> RecordView<T> {
        RecordView { path: self.path@, modified: self.modified, state: self.state }
    }
}

pub open spec fn record_views<T>(rs: Seq<Record<T>>) -> Seq<RecordView<T>> {
    rs.map_values(|r: Record<T>| r.view())
}

/// Thumbnails of image files, keyed by path, in the order the paths were
/// first cached (oldest first).
pub struct ThumbnailCache<T> {
    enabled: bool,
    records: Vec<Record<T>>,
}

/// No two records are for the same path (paths compare by components).
pub open spec fn unique_paths<T>(rs: Seq<RecordView<T>>) -> bool {
    forall|i: int, j: int|
        0 <= i < rs.len() && 0 <= j < rs.len() && i != j ==> !same_path(
            (#[trigger] rs[i]).path,
            (#[trigger] rs[j]).path,
        )
}

/// The position of the record for `path`.
pub open spec fn find_record<T>(rs: Seq<RecordView<T>>, path: Seq<char>) -> Option<int>
    decreases rs.len(),
{
    if rs.len() == 0 {
        None
    } else if same_path(rs.last().path, path) {
        Some(rs.len() - 1)
    } else {
        find_record(rs.drop_last(), path)
    }
}

/// Sets the record for `path`: in place when there is one, which keeps the
/// path it was first stored under (as `HashMap::insert` keeps its key),
/// otherwise as the newest record.
pub open spec fn upsert<T>(
    rs: Seq<RecordView<T>>,
    path: Seq<char>,
    modified: Option<i128>,
    state: ThumbState<T>,
) -> Seq<RecordView<T>> {
    match find_record(rs, path) {
        Some(i) => rs.update(i, RecordView { path: rs[i].path, modified, state }),
        None => rs.push(RecordView { path, modified, state }),
    }
}

/// Eviction, scanning from the oldest record while `excess` records are
/// still to go: a pending record is moved behind the others, any other
/// record is dropped. Every record is scanned at most once.
pub open spec fn evict_from<T>(rest: Seq<RecordView<T>>, moved: Seq<RecordView<T>>, excess: int) -> Seq<
    RecordView<T>,
>
    decreases rest.len(),
{
    if excess <= 0 || rest.len() == 0 {
        rest + moved
    } else if rest[0].state is Pending {
        evict_from(rest.drop_first(), moved.push(rest[0]), excess)
    } else {
        evict_from(rest.drop_first(), moved, excess - 1)
    }
}

/// The records left once the cache is brought back to `CACHE_CAPACITY`.
pub open spec fn evicted<T>(rs: Seq<RecordView<T>>) -> Seq<RecordView<T>> {
    evict_from(rs, Seq::empty(), rs.len() - CACHE_CAPACITY)
}

/// What the cache holds for a path and modification time.
pub enum Lookup<'a, T> {
    Ready(&'a T),
    Pending,
    Failed,
    Missing,
}

impl<T> ThumbnailCache<T> {
    /// The records, oldest first.
    pub closed spec fn records(&self) -> Seq<RecordView<T>> {
        record_views(self.records@)
    }

    pub closed spec fn is_enabled(&self) -> bool {
        self.enabled
    }

    /// Paths are unique.
    pub open spec fn wf(&self) -> bool {
        unique_paths(self.records())
    }

    /// An empty cache; thumbnails are shown only when `enabled`.
    pub fn new(enabled: bool) -> (c: Self)
        ensures
            c.wf(),
            c.records() == Seq::<RecordView<T>>::empty(),
            c.is_enabled() == enabled,
    {
        let c = ThumbnailCache { enabled, records: Vec::new() };
        assert(c.records() =~= Seq::<RecordView<T>>::empty());
        c
    }

    pub fn enabled(&self) -> (b: bool)
        ensures
            b == self.is_enabled(),
    {
        self.enabled
    }

    fn position(&self, path: &String) -> (r: Option<usize>)
        ensures
            match r {
                Some(i) => find_record(self.records(), path@) == Some(i as int) && i
                    < self.records@.len(),
                None => find_record(self.records(), path@) is None,
            },
    {
        let ghost rs = self.records();
        let key = components_of(&chars_of(path.as_str()));
        let mut k = self.records.len();
        assert(rs.take(k as int) =~= rs);
        while k > 0
            invariant
                k <= self.records@.len(),
                rs == self.records(),
                views(key@) == path_components(path@),
                find_record(rs, path@) == find_record(rs.take(k as int), path@),
            decreases k,
        {
            assert(rs.take(k as int).last() == rs[k - 1]);
            let rec = &self.records[k - 1];
            proof {
                use_type_invariant(rec);
            }
            if same_components(&rec.key, &key) {
                return Some(k - 1);
            }
            assert(rs.take(k as int).drop_last() =~= rs.take(k - 1));
            k = k - 1;
        }
        None
    }

    /// Whether a thumbnail for `path` at `modified` still has to be made:
    /// there is no record for the path, or its record is for another
    /// modification time.
    pub fn needs_fetch(&self, path: &String, modified: Option<i128>) -> (b: bool)
        ensures
            b == needs_fetch_spec(self.records(), path@, modified),
    {
        match self.position(path) {
            Some(i) => self.records[i].modified != modified,
            None => true,
        }
    }

    /// Records that a thumbnail for `path` at `modified` is being made.
    pub fn mark_pending(&mut self, path: String, modified: Option<i128>)
        requires
            old(self).wf(),
        ensures
            final(self).wf(),
            final(self).is_enabled() == old(self).is_enabled(),
            final(self).records() == evicted(
                upsert(old(self).records(), path@, modified, ThumbState::Pending),
            ),
            within_capacity(final(self).records()),
    {
        self.put(path, modified, ThumbState::Pending);
    }

    /// Records the outcome of decoding `path` at `modified`: the thumbnail,
    /// or `None` when decoding failed.
    pub fn store(&mut self, path: String, modified: Option<i128>, image: Option<T>)
        requires
            old(self).wf(),
        ensures
            final(self).wf(),
            final(self).is_enabled() == old(self).is_enabled(),
            final(self).records() == evicted(
                upsert(
                    old(self).records(),
                    path@,
                    modified,
                    match image {
                        Some(i) => ThumbState::Ready(i),
                        None => ThumbState::Failed,
                    },
                ),
            ),
            within_capacity(final(self).records()),
    {
        let state = match image {
            Some(i) => ThumbState::Ready(i),
            None => ThumbState::Failed,
        };
        self.put(path, modified, state);
    }

    /// Asks for a thumbnail of `path` at `modified`: when the cache has
    /// none for that time, marks it as being made and returns `true` (the
    /// caller then decodes the file and stores the outcome); otherwise
    /// leaves the cache as it is and returns `false`.
    pub fn request(&mut self, path: String, modified: Option<i128>) -> (started: bool)
        requires
            old(self).wf(),
        ensures
            final(self).wf(),
            final(self).is_enabled() == old(self).is_enabled(),
            started == needs_fetch_spec(old(self).records(), path@, modified),
            started ==> final(self).records() == evicted(
                upsert(old(self).records(), path@, modified, ThumbState::Pending),
            ),
            !started ==> final(self).records() == old(self).records(),
            within_capacity(old(self).records()) ==> within_capacity(final(self).records()),
    {
        if !self.needs_fetch(&path, modified) {
            return false;
        }
        self.mark_pending(path, modified);
        true
    }

    fn put(&mut self, path: String, modified: Option<i128>, state: ThumbState<T>)
        requires
            old(self).wf(),
        ensures
            final(self).wf(),
            final(self).is_enabled() == old(self).is_enabled(),
            final(self).records() == evicted(upsert(old(self).records(), path@, modified, state)),
            within_capacity(final(self).records()),
    {
        let ghost rs = self.records();
        let ghost target = upsert(rs, path@, modified, state);
        let pos = self.position(&path);
        match pos {
            Some(i) => {
                let existing = self.records.remove(i);
                proof {
                    use_type_invariant(&existing);
                }
                assert(existing.view() == rs[i as int]);
                let rec = Record { path: existing.path, key: existing.key, modified, state };
                let ghost rv = rec.view();
                self.records.insert(i, rec);
                assert(self.records() =~= rs.update(i as int, rv));
            },
            None => {
                let key = components_of(&chars_of(path.as_str()));
                let rec = Record { path, key, modified, state };
                let ghost rv = rec.view();
                self.records.push(rec);
                assert(self.records() =~= rs.push(rv));
            },
        }
        proof {
            lemma_upsert_unique(rs, path@, modified, state);
        }
        assert(unique_paths(self.records()));
        self.evict_if_needed();
        proof {
            law_eviction(target);
        }
    }

    fn evict_if_needed(&mut self)
        requires
            unique_paths(old(self).records()),
        ensures
            final(self).wf(),
            final(self).is_enabled() == old(self).is_enabled(),
            final(self).records() == evicted(old(self).records()),
    {
        let ghost start = self.records();
        let mut budget = self.records.len();
        proof {
            assert(start.take(budget as int) =~= start);
            assert(start.skip(budget as int) =~= Seq::<RecordView<T>>::empty());
            assert(start + Seq::<RecordView<T>>::empty() =~= start);
        }
        while self.records.len() > CACHE_CAPACITY && budget > 0
            invariant
                budget <= self.records@.len(),
                self.enabled == old(self).enabled,
                evicted(start) == evict_from(
                    self.records().take(budget as int),
                    self.records().skip(budget as int),
                    self.records().len() - CACHE_CAPACITY,
                ),
                unique_paths(self.records().take(budget as int) + self.records().skip(budget as int)),
            decreases budget,
        {
            let ghost v = self.records();
            assert(v.take(budget as int) + v.skip(budget as int) =~= v);
            budget = budget - 1;
            let candidate = self.records.remove(0);
            let ghost c = candidate.view();
            assert(c == v[0]);
            let pending = match candidate.state {
                ThumbState::Pending => true,
                _ => false,
            };
            if pending {
                self.records.push(candidate);
                assert(self.records() =~= v.drop_first().push(c));
                assert(self.records().take(budget as int) =~= v.take(budget + 1).drop_first());
                assert(self.records().skip(budget as int) =~= v.skip(budget + 1).push(c));
                proof {
                    lemma_rotate_unique(v.take(budget + 1), v.skip(budget + 1));
                }
            } else {
                assert(self.records() =~= v.drop_first());
                assert(self.records().take(budget as int) =~= v.take(budget + 1).drop_first());
                assert(self.records().skip(budget as int) =~= v.skip(budget + 1));
                proof {
                    lemma_drop_first_unique(v);
                    assert(self.records().take(budget as int) + self.records().skip(budget as int)
                        =~= v.drop_first());
                }
            }
        }
        let ghost v = self.records();
        assert(v.take(budget as int) + v.skip(budget as int) =~= v);
    }
}

proof fn lemma_drop_first_unique<T>(v: Seq<RecordView<T>>)
    requires
        unique_paths(v),
        v.len() > 0,
    ensures
        unique_paths(v.drop_first()),
{
    let d = v.drop_first();
    assert forall|i: int, j: int|
        0 <= i < d.len() && 0 <= j < d.len() && i != j implies !same_path(
        (#[trigger] d[i]).path,
        (#[trigger] d[j]).path,
    ) by {
        assert(d[i] == v[i + 1]);
        assert(d[j] == v[j + 1]);
    }
}

proof fn lemma_rotate_unique<T>(rest: Seq<RecordView<T>>, moved: Seq<RecordView<T>>)
    requires
        unique_paths(rest + moved),
        rest.len() > 0,
    ensures
        unique_paths(rest.drop_first() + moved.push(rest[0])),
{
    let a = rest + moved;
    let b = rest.drop_first() + moved.push(rest[0]);
    let n = a.len();
    assert(b.len() == n);
    // b[i] == a[(i + 1) % n]
    assert forall|i: int| 0 <= i < n implies #[trigger] b[i] == a[if i + 1 < n {
        i + 1
    } else {
        0
    }] by {
        if i < rest.len() - 1 {
            assert(b[i] == rest[i + 1]);
        } else if i < n - 1 {
            assert(b[i] == moved[i - (rest.len() - 1)]);
            assert(a[i + 1] == moved[i + 1 - rest.len()]);
        } else {
            assert(b[i] == rest[0]);
        }
    }
    assert forall|i: int, j: int|
        0 <= i < b.len() && 0 <= j < b.len() && i != j implies !same_path(
        (#[trigger] b[i]).path,
        (#[trigger] b[j]).path,
    ) by {
        let ii = if i + 1 < n {
            i + 1
        } else {
            0
        };
        let jj = if j + 1 < n {
            j + 1
        } else {
            0
        };
        assert(b[i] == a[ii]);
        assert(b[j] == a[jj]);
        assert(!same_path(a[ii].path, a[jj].path));
    }
}

proof fn lemma_find_record<T>(rs: Seq<RecordView<T>>, path: Seq<char>)
    ensures
        match find_record(rs, path) {
            Some(i) => 0 <= i < rs.len() && same_path(rs[i].path, path),
            None => forall|k: int| 0 <= k < rs.len() ==> !same_path((#[trigger] rs[k]).path, path),
        },
    decreases rs.len(),
{
    if rs.len() > 0 {
        lemma_find_record(rs.drop_last(), path);
        if !same_path(rs.last().path, path) {
            match find_record(rs.drop_last(), path) {
                Some(i) => {
                    assert(rs[i] == rs.drop_last()[i]);
                },
                None => {
                    assert forall|k: int| 0 <= k < rs.len() implies !same_path(
                        (#[trigger] rs[k]).path,
                        path,
                    ) by {
                        if k < rs.len() - 1 {
                            assert(rs[k] == rs.drop_last()[k]);
                        }
                    }
                },
            }
        }
    }
}

/// In a cache without repeated paths, the record found for a path is the
/// one record with that path.
pub proof fn lemma_find_unique<T>(rs: Seq<RecordView<T>>, path: Seq<char>, k: int)
    requires
        unique_paths(rs),
        0 <= k < rs.len(),
        same_path(rs[k].path, path),
    ensures
        find_record(rs, path) == Some(k),
{
    lemma_find_record(rs, path);
    match find_record(rs, path) {
        Some(i) => {
            if i != k {
                assert(!same_path(rs[i].path, rs[k].path));
            }
        },
        None => {
            assert(!same_path(rs[k].path, path));
        },
    }
}

proof fn lemma_upsert_unique<T>(
    rs: Seq<RecordView<T>>,
    path: Seq<char>,
    modified: Option<i128>,
    state: ThumbState<T>,
)
    requires
        unique_paths(rs),
    ensures
        unique_paths(upsert(rs, path, modified, state)),
{
    lemma_find_record(rs, path);
    let u = upsert(rs, path, modified, state);
    match find_record(rs, path) {
        Some(i) => {
            assert forall|a: int, b: int|
                0 <= a < u.len() && 0 <= b < u.len() && a != b implies !same_path(
                (#[trigger] u[a]).path,
                (#[trigger] u[b]).path,
            ) by {
                assert(u[a].path == rs[a].path);
                assert(u[b].path == rs[b].path);
            }
        },
        None => {
            assert forall|a: int, b: int|
                0 <= a < u.len() && 0 <= b < u.len() && a != b implies !same_path(
                (#[trigger] u[a]).path,
                (#[trigger] u[b]).path,
            ) by {
                if a < rs.len() && b < rs.len() {
                    assert(u[a] == rs[a]);
                    assert(u[b] == rs[b]);
                } else if a < rs.len() {
                    assert(u[a] == rs[a]);
                } else if b < rs.len() {
                    assert(u[b] == rs[b]);
                }
            }
        },
    }
}

/// What the cache holds for `path` at `modified`: the state of its record
/// when that record is for this modification time, `Missing` otherwise.
pub open spec fn lookup_spec<'a, T>(rs: Seq<RecordView<T>>, path: Seq<char>, modified: Option<i128>, result: Lookup<'a, T>) -> bool {
    match find_record(rs, path) {
        Some(i) => if rs[i].modified == modified {
            match rs[i].state {
                ThumbState::Ready(img) => result matches Lookup::Ready(r) && *r == img,
                ThumbState::Pending => result is Pending,
                ThumbState::Failed => result is Failed,
            }
        } else {
            result is Missing
        },
        None => result is Missing,
    }
}

/// What the cache holds for `path` at `modified`.
pub fn lookup<'a, T>(cache: &'a ThumbnailCache<T>, path: &String, modified: Option<i128>) -> (r: Lookup<'a, T>)
    ensures
        lookup_spec(cache.records(), path@, modified, r),
{
    match cache.position(path) {
        Some(i) => {
            let rec = &cache.records[i];
            if rec.modified == modified {
                match &rec.state {
                    ThumbState::Ready(img) => Lookup::Ready(img),
                    ThumbState::Pending => Lookup::Pending,
                    ThumbState::Failed => Lookup::Failed,
                }
            } else {
                Lookup::Missing
            }
        },
        None => Lookup::Missing,
    }
}

/// The cache holds at most `CACHE_CAPACITY` records, or only records
/// still being decoded.
pub open spec fn within_capacity<T>(rs: Seq<RecordView<T>>) -> bool {
    rs.len() <= CACHE_CAPACITY || forall|k: int| 0 <= k < rs.len() ==> (#[trigger] rs[k]).state is Pending
}

proof fn lemma_evict_from<T>(rest: Seq<RecordView<T>>, moved: Seq<RecordView<T>>, e: int)
    requires
        forall|k: int| 0 <= k < moved.len() ==> (#[trigger] moved[k]).state is Pending,
    ensures
        ({
            let r = evict_from(rest, moved, e);
            let all = rest + moved;
            &&& r.len() <= all.len()
            &&& r.len() <= all.len() - e || forall|k: int| 0 <= k < r.len() ==> (#[trigger] r[k]).state is Pending
            &&& forall|k: int| 0 <= k < r.len() ==> all.contains(#[trigger] r[k])
            &&& forall|k: int| 0 <= k < all.len() && (#[trigger] all[k]).state is Pending ==> r.contains(all[k])
        }),
    decreases rest.len(),
{
    let r = evict_from(rest, moved, e);
    let all = rest + moved;
    if e <= 0 || rest.len() == 0 {
        assert(r == all);
        assert forall|k: int| 0 <= k < r.len() implies all.contains(#[trigger] r[k]) by {
            assert(all[k] == r[k]);
        }
        assert forall|k: int| 0 <= k < all.len() && (#[trigger] all[k]).state is Pending implies r.contains(all[k]) by {
            assert(r[k] == all[k]);
        }
        if rest.len() == 0 {
            assert forall|k: int| 0 <= k < r.len() implies (#[trigger] r[k]).state is Pending by {
                assert(r[k] == moved[k]);
            }
        }
    } else if rest[0].state is Pending {
        let moved2 = moved.push(rest[0]);
        let all2 = rest.drop_first() + moved2;
        assert forall|k: int| 0 <= k < moved2.len() implies (#[trigger] moved2[k]).state is Pending by {
            if k < moved.len() {
                assert(moved2[k] == moved[k]);
            }
        }
        lemma_evict_from(rest.drop_first(), moved2, e);
        assert forall|k: int| 0 <= k < all2.len() implies all.contains(#[trigger] all2[k]) by {
            if k < rest.len() - 1 {
                assert(all2[k] == all[k + 1]);
            } else if k < all2.len() - 1 {
                assert(all2[k] == all[k + 1]);
            } else {
                assert(all2[k] == all[0]);
            }
        }
        assert forall|k: int| 0 <= k < all.len() && (#[trigger] all[k]).state is Pending implies r.contains(all[k]) by {
            if k == 0 {
                assert(all2[all2.len() - 1] == all[0]);
            } else {
                assert(all2[k - 1] == all[k]);
            }
        }
        assert forall|k: int| 0 <= k < r.len() implies all.contains(#[trigger] r[k]) by {
            assert(all2.contains(r[k]));
            let j = choose|j: int| 0 <= j < all2.len() && all2[j] == r[k];
            assert(all.contains(all2[j]));
        }
    } else {
        let all2 = rest.drop_first() + moved;
        lemma_evict_from(rest.drop_first(), moved, e - 1);
        assert forall|k: int| 0 <= k < all2.len() implies #[trigger] all2[k] == all[k + 1] by {}
        assert forall|k: int| 0 <= k < r.len() implies all.contains(#[trigger] r[k]) by {
            assert(all2.contains(r[k]));
            let j = choose|j: int| 0 <= j < all2.len() && all2[j] == r[k];
            assert(all[j + 1] == r[k]);
        }
        assert forall|k: int| 0 <= k < all.len() && (#[trigger] all[k]).state is Pending implies r.contains(all[k]) by {
            assert(k != 0);
            assert(all2[k - 1] == all[k]);
        }
    }
}

/// Eviction keeps the cache within capacity, keeps every record being
/// decoded, and only removes records.
pub proof fn law_eviction<T>(rs: Seq<RecordView<T>>)
    ensures
        within_capacity(evicted(rs)),
        forall|k: int| 0 <= k < rs.len() && (#[trigger] rs[k]).state is Pending ==> evicted(rs).contains(rs[k]),
        forall|k: int| 0 <= k < evicted(rs).len() ==> rs.contains(#[trigger] evicted(rs)[k]),
        rs.len() <= CACHE_CAPACITY ==> evicted(rs) == rs,
{
    lemma_evict_from(rs, Seq::empty(), rs.len() - CACHE_CAPACITY);
    assert(rs + Seq::<RecordView<T>>::empty() =~= rs);
}

/// Whether a thumbnail for `path` at `modified` still has to be made.
pub open spec fn needs_fetch_spec<T>(rs: Seq<RecordView<T>>, path: Seq<char>, modified: Option<i128>) -> bool {
    match find_record(rs, path) {
        Some(i) => rs[i].modified != modified,
        None => true,
    }
}

/// A thumbnail has to be fetched exactly when the cache has nothing for
/// that path and modification time.
pub proof fn law_needs_fetch_iff_missing<'a, T>(rs: Seq<RecordView<T>>, path: Seq<char>, modified: Option<i128>)
    ensures
        needs_fetch_spec(rs, path, modified) <==> lookup_spec(rs, path, modified, Lookup::<'a, T>::Missing),
{
}

/// Once a thumbnail is marked as being made, the cache reports it as
/// pending and does not ask for it again.
pub proof fn law_pending_is_kept<'a, T>(rs: Seq<RecordView<T>>, path: Seq<char>, modified: Option<i128>)
    requires
        unique_paths(rs),
    ensures
        lookup_spec(evicted(upsert(rs, path, modified, ThumbState::Pending)), path, modified, Lookup::<'a, T>::Pending),
        !needs_fetch_spec(evicted(upsert(rs, path, modified, ThumbState::<T>::Pending)), path, modified),
{
    let u = upsert(rs, path, modified, ThumbState::<T>::Pending);
    lemma_upsert_unique(rs, path, modified, ThumbState::<T>::Pending);
    lemma_find_record(rs, path);
    let k: int = match find_record(rs, path) {
        Some(i) => i,
        None => rs.len() as int,
    };
    let x = u[k];
    assert(same_path(x.path, path) && x.modified == modified && x.state is Pending);
    law_eviction(u);
    let r = evicted(u);
    assert(r.contains(x));
    let j = choose|j: int| 0 <= j < r.len() && r[j] == x;
    assert forall|a: int, b: int| 0 <= a < r.len() && 0 <= b < r.len() && a != b implies !same_path((#[trigger] r[a]).path, (#[trigger] r[b]).path) by {
        lemma_evicted_unique(u);
    }
    lemma_find_unique(r, path, j);
}

/// The cache never holds two records for one path: setting a record keeps
/// paths distinct, and so does eviction, which only drops records or moves
/// them to the back.
pub proof fn law_cache_stays_well_formed<T>(
    rs: Seq<RecordView<T>>,
    path: Seq<char>,
    modified: Option<i128>,
    state: ThumbState<T>,
)
    requires
        unique_paths(rs),
    ensures
        unique_paths(upsert(rs, path, modified, state)),
        unique_paths(evicted(rs)),
        unique_paths(evicted(upsert(rs, path, modified, state))),
{
    lemma_upsert_unique(rs, path, modified, state);
    lemma_evicted_unique(rs);
    lemma_evicted_unique(upsert(rs, path, modified, state));
}

proof fn lemma_evicted_unique<T>(rs: Seq<RecordView<T>>)
    requires
        unique_paths(rs),
    ensures
        unique_paths(evicted(rs)),
{
    lemma_evict_from_unique(rs, Seq::empty(), rs.len() - CACHE_CAPACITY);
    assert(rs + Seq::<RecordView<T>>::empty() =~= rs);
}

proof fn lemma_evict_from_unique<T>(rest: Seq<RecordView<T>>, moved: Seq<RecordView<T>>, e: int)
    requires
        unique_paths(rest + moved),
    ensures
        unique_paths(evict_from(rest, moved, e)),
    decreases rest.len(),
{
    if e <= 0 || rest.len() == 0 {
    } else if rest[0].state is Pending {
        lemma_rotate_unique(rest, moved);
        lemma_evict_from_unique(rest.drop_first(), moved.push(rest[0]), e);
    } else {
        lemma_drop_first_unique(rest + moved);
        assert((rest + moved).drop_first() =~= rest.drop_first() + moved);
        lemma_evict_from_unique(rest.drop_first(), moved, e - 1);
    }
}

/// A stored outcome is what the cache then reports for that path and
/// modification time, as long as the cache was below capacity.
pub proof fn law_store_then_lookup<'a, T>(rs: Seq<RecordView<T>>, path: Seq<char>, modified: Option<i128>, image: Option<T>)
    requires
        unique_paths(rs),
        rs.len() < CACHE_CAPACITY,
    ensures
        ({
            let after = evicted(upsert(rs, path, modified, match image {
                Some(i) => ThumbState::Ready(i),
                None => ThumbState::Failed,
            }));
            &&& !needs_fetch_spec(after, path, modified)
            &&& match find_record(after, path) {
                Some(i) => after[i].modified == modified && after[i].state == match image {
                    Some(img) => ThumbState::Ready(img),
                    None => ThumbState::<T>::Failed,
                },
                None => false,
            }
        }),
{
    let st = match image {
        Some(i) => ThumbState::Ready(i),
        None => ThumbState::<T>::Failed,
    };
    let u = upsert(rs, path, modified, st);
    lemma_upsert_unique(rs, path, modified, st);
    lemma_find_record(rs, path);
    let k: int = match find_record(rs, path) {
        Some(i) => i,
        None => rs.len() as int,
    };
    assert(same_path(u[k].path, path) && u[k].modified == modified && u[k].state == st);
    law_eviction(u);
    assert(evicted(u) == u);
    lemma_find_unique(u, path, k);
}

/// What the file list shows for a file's icon.
pub enum ThumbnailAction<'a, T> {
    /// Show this thumbnail.
    Show(&'a T),
    /// Show the ordinary file icon.
    Plain,
    /// Show the ordinary file icon and ask for a thumbnail.
    Request,
}

/// Directories, symlinks and files of other formats, or any file while
/// thumbnails are off, get the ordinary icon; otherwise the cache decides:
/// a ready thumbnail is shown, a pending or failed one is not, and a
/// missing one is requested.
pub open spec fn icon_thumbnail_spec<'a, T>(
    enabled: bool,
    rs: Seq<RecordView<T>>,
    entry: FsEntry,
    result: ThumbnailAction<'a, T>,
) -> bool {
    if entry.is_dir || entry.is_symlink || !enabled || !is_supported_image_spec(entry.path@) {
        result is Plain
    } else {
        match find_record(rs, entry.path@) {
            Some(i) => if rs[i].modified == entry.modified {
                match rs[i].state {
                    ThumbState::Ready(img) => result matches ThumbnailAction::Show(r) && *r == img,
                    _ => result is Plain,
                }
            } else {
                result is Request
            },
            None => result is Request,
        }
    }
}

/// What to show as the icon of `entry`.
pub fn icon_thumbnail<'a, T>(cache: &'a ThumbnailCache<T>, entry: &FsEntry) -> (r: ThumbnailAction<'a, T>)
    ensures
        icon_thumbnail_spec(cache.is_enabled(), cache.records(), *entry, r),
{
    if entry.is_dir || entry.is_symlink {
        return ThumbnailAction::Plain;
    }
    if !cache.enabled() || !is_supported_image(entry.path.as_str()) {
        return ThumbnailAction::Plain;
    }
    match lookup(cache, &entry.path, entry.modified) {
        Lookup::Ready(img) => ThumbnailAction::Show(img),
        Lookup::Pending => ThumbnailAction::Plain,
        Lookup::Failed => ThumbnailAction::Plain,
        Lookup::Missing => ThumbnailAction::Request,
    }
}

/// The files that get a thumbnail and a preview are exactly those whose
/// extension, in any ASCII case, is png, jpg, jpeg, jfif, gif, bmp, webp,
/// ico, tiff, tif, qoi or tga.
pub proof fn law_supported_extensions(path: Seq<char>)
    ensures
        is_supported_image_spec(path) <==> (extension(path) matches Some(e) && seq![
            "png"@,
            "jpg"@,
            "jpeg"@,
            "jfif"@,
            "gif"@,
            "bmp"@,
            "webp"@,
            "ico"@,
            "tiff"@,
            "tif"@,
            "qoi"@,
            "tga"@,
        ].contains(ascii_lower_seq(e))),
{
}

/// Letters and digits only.
spec fn plain_word(w: Seq<char>) -> bool {
    forall|k: int| 0 <= k < w.len() ==> ('a' <= #[trigger] w[k] <= 'z' || '0' <= w[k] <= '9')
}

/// A file named `x.` and one of png, jpg, jpeg, jfif, gif, bmp, webp, ico,
/// tiff, tif, qoi or tga, in any ASCII case, is a supported image, whatever
/// directory it is in.
pub proof fn law_image_file_names(dir: Seq<char>, e: Seq<char>)
    requires
        seq![
            "png"@,
            "jpg"@,
            "jpeg"@,
            "jfif"@,
            "gif"@,
            "bmp"@,
            "webp"@,
            "ico"@,
            "tiff"@,
            "tif"@,
            "qoi"@,
            "tga"@,
        ].contains(ascii_lower_seq(e)),
    ensures
        is_supported_image_spec(dir + seq!['/', 'x', '.'] + e),
{
    reveal_strlit("png");
    reveal_strlit("jpg");
    reveal_strlit("jpeg");
    reveal_strlit("jfif");
    reveal_strlit("gif");
    reveal_strlit("bmp");
    reveal_strlit("webp");
    reveal_strlit("ico");
    reveal_strlit("tiff");
    reveal_strlit("tif");
    reveal_strlit("qoi");
    reveal_strlit("tga");
    let w = ascii_lower_seq(e);
    assert(plain_word(w)) by {
        let words = supported_extensions();
        assert forall|i: int| 0 <= i < words.len() implies plain_word(#[trigger] words[i]) by {}
        let i = choose|i: int| 0 <= i < words.len() && words[i] == w;
    }
    assert forall|k: int| 0 <= k < e.len() implies #[trigger] e[k] != '.' && e[k] != '/' by {
        assert(w[k] == ascii_lower(e[k]));
    }
    assert(!e.contains('.'));
    assert(!e.contains('/'));
    let f = seq!['x', '.'] + e;
    assert(!f.contains('/')) by {
        if f.contains('/') {
            let k = choose|k: int| 0 <= k < f.len() && f[k] == '/';
            assert(f[k] == e[k - 2]);
        }
    }
    let p = dir + seq!['/', 'x', '.'] + e;
    assert(p =~= dir + seq!['/'] + f);
    lemma_split_on_concat(dir, f, '/');
    lemma_split_on_absent(f, '/');
    let segs = split_on(p, '/');
    assert(segs.last() == f);
    assert(f.len() > 0 && f != seq!['.']) by {
        assert(f[1] == '.');
    }
    assert(last_component(segs) == Some(f));
    assert(f != seq!['.', '.']) by {
        assert(f[0] == 'x');
    }
    assert(file_name(p) == Some(f));
    lemma_last_index_append(seq!['x', '.'], e, '.');
    assert(seq!['x', '.'].drop_last() =~= seq!['x']);
    assert(last_index_of(f, '.') == Some(1int));
    assert(f.skip(2) =~= e);
    assert(extension(p) == Some(e));
}

} // verus!
