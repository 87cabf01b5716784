use explorer::decode::{bgra_thumbnail, decode, MAX_SOURCE_BYTES};
use explorer::entry::FsEntry;
use explorer::thumbnail::{
    icon_thumbnail, is_supported_image, lookup, Lookup, ThumbnailAction, ThumbnailCache,
    CACHE_CAPACITY,
};

#[test]
fn supported_images_by_extension() {
    assert!(is_supported_image("/pics/a.png"));
    assert!(is_supported_image("/pics/a.JPEG"));
    assert!(is_supported_image("b.Tga"));
    assert!(is_supported_image("/pics/dir.d/c.webp/"));
    assert!(!is_supported_image("/pics/a.svg"));
    assert!(!is_supported_image("/pics/.png"));
    assert!(!is_supported_image("/pics/png"));
    assert!(!is_supported_image("/pics/a.png/.."));
    assert!(!is_supported_image(""));
}

fn state(cache: &ThumbnailCache<u32>, path: &str, modified: Option<i128>) -> &'static str {
    match lookup(cache, &path.to_string(), modified) {
        Lookup::Ready(_) => "ready",
        Lookup::Pending => "pending",
        Lookup::Failed => "failed",
        Lookup::Missing => "missing",
    }
}

#[test]
fn cache_records_pending_ready_and_failed() {
    let mut cache: ThumbnailCache<u32> = ThumbnailCache::new(true);
    assert!(cache.enabled());
    let a = "/a.png".to_string();
    assert!(cache.needs_fetch(&a, Some(5)));
    assert!(cache.request(a.clone(), Some(5)));
    assert_eq!(state(&cache, "/a.png", Some(5)), "pending");
    assert!(!cache.needs_fetch(&a, Some(5)));
    assert!(!cache.request(a.clone(), Some(5)));
    cache.store(a.clone(), Some(5), Some(7));
    match lookup(&cache, &a, Some(5)) {
        Lookup::Ready(v) => assert_eq!(*v, 7),
        _ => panic!("expected a thumbnail"),
    }
    // A newer modification time asks again.
    assert_eq!(state(&cache, "/a.png", Some(6)), "missing");
    assert!(cache.needs_fetch(&a, Some(6)));
    cache.store("/b.png".to_string(), None, None);
    assert_eq!(state(&cache, "/b.png", None), "failed");
    assert!(!ThumbnailCache::<u32>::new(false).enabled());
}

#[test]
fn cache_evicts_oldest_finished_records_first() {
    let mut cache: ThumbnailCache<u32> = ThumbnailCache::new(true);
    cache.mark_pending("/p0".to_string(), None);
    for i in 1..=CACHE_CAPACITY {
        cache.store(format!("/r{i}"), None, Some(i as u32));
    }
    // 513 records: the oldest finished one (/r1) goes, the pending one stays.
    assert_eq!(state(&cache, "/p0", None), "pending");
    assert_eq!(state(&cache, "/r1", None), "missing");
    assert_eq!(state(&cache, "/r2", None), "ready");
    assert_eq!(state(&cache, &format!("/r{CACHE_CAPACITY}"), None), "ready");
    cache.store("/x".to_string(), None, None);
    assert_eq!(state(&cache, "/r2", None), "missing");
    assert_eq!(state(&cache, "/x", None), "failed");
}

#[test]
fn cache_keeps_pending_records_beyond_capacity() {
    let mut cache: ThumbnailCache<u32> = ThumbnailCache::new(true);
    for i in 0..CACHE_CAPACITY + 3 {
        cache.mark_pending(format!("/p{i}"), None);
    }
    for i in 0..CACHE_CAPACITY + 3 {
        assert_eq!(state(&cache, &format!("/p{i}"), None), "pending");
    }
    // A finished record beyond capacity is evicted at once when all others are pending.
    cache.store("/done".to_string(), None, Some(1));
    assert_eq!(state(&cache, "/done", None), "missing");
    // Finishing a pending one lets it be evicted first.
    cache.store("/p0".to_string(), None, Some(1));
    assert_eq!(state(&cache, "/p0", None), "missing");
    assert_eq!(state(&cache, "/p1", None), "pending");
}

fn entry(path: &str, is_dir: bool, is_symlink: bool) -> FsEntry {
    FsEntry {
        path: path.to_string(),
        is_dir,
        is_symlink,
        is_broken_symlink: false,
        modified: Some(1),
        size: 10,
    }
}

fn action(cache: &ThumbnailCache<u32>, e: &FsEntry) -> String {
    match icon_thumbnail(cache, e) {
        ThumbnailAction::Show(v) => format!("show {v}"),
        ThumbnailAction::Plain => "plain".to_string(),
        ThumbnailAction::Request => "request".to_string(),
    }
}

#[test]
fn icon_thumbnail_decisions() {
    let mut cache: ThumbnailCache<u32> = ThumbnailCache::new(true);
    assert_eq!(action(&cache, &entry("/a.png", false, false)), "request");
    assert_eq!(action(&cache, &entry("/a.png", true, false)), "plain");
    assert_eq!(action(&cache, &entry("/a.png", false, true)), "plain");
    assert_eq!(action(&cache, &entry("/a.txt", false, false)), "plain");
    cache.mark_pending("/a.png".to_string(), Some(1));
    assert_eq!(action(&cache, &entry("/a.png", false, false)), "plain");
    cache.store("/a.png".to_string(), Some(1), Some(3));
    assert_eq!(action(&cache, &entry("/a.png", false, false)), "show 3");
    cache.store("/a.png".to_string(), Some(1), None);
    assert_eq!(action(&cache, &entry("/a.png", false, false)), "plain");
    let off: ThumbnailCache<u32> = ThumbnailCache::new(false);
    assert_eq!(action(&off, &entry("/a.png", false, false)), "plain");
}

#[test]
fn bgra_swaps_red_and_blue() {
    let t = bgra_thumbnail(2, 1, vec![1, 2, 3, 4, 5, 6, 7, 8, 9]).expect("thumbnail");
    assert_eq!((t.width, t.height), (2, 1));
    assert_eq!(t.bgra, vec![3, 2, 1, 4, 7, 6, 5, 8, 9]);
    let back = bgra_thumbnail(2, 1, t.bgra.clone()).expect("thumbnail");
    assert_eq!(back.bgra, vec![1, 2, 3, 4, 5, 6, 7, 8, 9]);
    assert!(bgra_thumbnail(0, 4, vec![1, 2, 3, 4]).is_none());
    assert!(bgra_thumbnail(4, 0, vec![]).is_none());
}

fn png(width: u32, height: u32) -> Vec<u8> {
    let mut img = image::RgbaImage::new(width, height);
    for p in img.pixels_mut() {
        *p = image::Rgba([10, 20, 200, 255]);
    }
    let mut bytes = Vec::new();
    img.write_to(&mut std::io::Cursor::new(&mut bytes), image::ImageFormat::Png).unwrap();
    bytes
}

#[test]
fn decode_makes_small_bgra_thumbnails() {
    let t = decode(png(2, 2)).expect("thumbnail");
    assert_eq!((t.width, t.height), (64, 64));
    assert_eq!(&t.bgra[0..4], &[200, 20, 10, 255]);
    let big = decode(png(256, 128)).expect("thumbnail");
    assert_eq!((big.width, big.height), (64, 32));
    assert_eq!(big.bgra.len(), 64 * 32 * 4);
    assert!(decode(b"not an image".to_vec()).is_none());
    assert!(decode(Vec::new()).is_none());
    assert!(decode(vec![0u8; MAX_SOURCE_BYTES as usize + 1]).is_none());
}

#[test]
fn cache_compares_paths_by_components() {
    let mut cache: ThumbnailCache<u32> = ThumbnailCache::new(true);
    assert!(cache.request("/pics//a.png".to_string(), Some(1)));
    assert!(!cache.request("/pics/a.png".to_string(), Some(1)));
    cache.store("/pics/./a.png".to_string(), Some(1), Some(9));
    match lookup(&cache, &"/pics/a.png".to_string(), Some(1)) {
        Lookup::Ready(v) => assert_eq!(*v, 9),
        _ => panic!("expected a thumbnail"),
    }
    assert_eq!(state(&cache, "/pics/b.png", Some(1)), "missing");
}
