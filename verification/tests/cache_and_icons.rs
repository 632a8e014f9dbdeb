use forestools::icon::{
    assemble_rgba, encode_icon, get_icon, get_icon_rgba, handle_request, is_shortcut_path,
    to_backslashes, IconImage, MAX_ICON_CACHE,
};
use forestools::launcher::{scan_cached, AppInfo};
use forestools::lru::LruCache;
use std::cell::Cell;

fn img(w: u32, h: u32, byte: u8) -> IconImage {
    IconImage { width: w, height: h, rgba: vec![byte; (w * h * 4) as usize] }
}

#[test]
fn lru_get_after_put() {
    let mut c: LruCache<u32> = LruCache::new(2);
    c.put("a".to_string(), 1);
    assert_eq!(c.get("a"), Some(1));
    assert_eq!(c.get("b"), None);
    c.put("a".to_string(), 5);
    assert_eq!(c.get("a"), Some(5));
    assert_eq!(c.len(), 1);
}

#[test]
fn lru_evicts_least_recent() {
    let mut c: LruCache<u32> = LruCache::new(2);
    c.put("a".to_string(), 1);
    c.put("b".to_string(), 2);
    // touching "a" makes "b" the least recent
    assert_eq!(c.get("a"), Some(1));
    c.put("c".to_string(), 3);
    assert_eq!(c.len(), 2);
    assert_eq!(c.get("b"), None);
    assert_eq!(c.get("a"), Some(1));
    assert_eq!(c.get("c"), Some(3));
}

#[test]
fn lru_capacity_zero_keeps_one() {
    let mut c: LruCache<u32> = LruCache::new(0);
    c.put("a".to_string(), 1);
    assert_eq!(c.len(), 1);
    c.put("b".to_string(), 2);
    assert_eq!(c.len(), 1);
    assert_eq!(c.get("a"), None);
    assert_eq!(c.get("b"), Some(2));
}

#[test]
fn icon_fetch_caches_and_skips_extraction() {
    let mut cache: LruCache<IconImage> = LruCache::new(4);
    let calls = Cell::new(0);
    let first = get_icon_rgba(&mut cache, "C:/x.lnk", |_p: &str| {
        calls.set(calls.get() + 1);
        Some(img(1, 1, 7))
    });
    assert_eq!(first.unwrap().rgba, vec![7, 7, 7, 7]);
    let second = get_icon_rgba(&mut cache, "C:/x.lnk", |_p: &str| {
        calls.set(calls.get() + 1);
        Some(img(1, 1, 9))
    });
    assert_eq!(second.unwrap().rgba, vec![7, 7, 7, 7]);
    assert_eq!(calls.get(), 1);
}

#[test]
fn icon_failed_extraction_not_cached() {
    let mut cache: LruCache<IconImage> = LruCache::new(4);
    assert!(get_icon_rgba(&mut cache, "p", |_p: &str| None).is_none());
    assert_eq!(cache.len(), 0);
}

#[test]
fn png_encoding_has_signature() {
    let ok = IconImage { width: 2, height: 1, rgba: vec![255, 0, 0, 255, 0, 255, 0, 128] };
    let png = encode_icon(&ok).unwrap();
    assert_eq!(&png[0..8], &[0x89, 0x50, 0x4E, 0x47, 0x0D, 0x0A, 0x1A, 0x0A]);
    assert!(png.len() > 8 + 25);
    let empty = IconImage { width: 0, height: 1, rgba: vec![] };
    assert!(encode_icon(&empty).is_none());
    let short = IconImage { width: 2, height: 1, rgba: vec![1, 2, 3] };
    assert!(encode_icon(&short).is_none());
}

#[test]
fn get_icon_gives_png() {
    let mut cache: LruCache<IconImage> = LruCache::new(4);
    let png = get_icon(&mut cache, "p", |_p: &str| Some(img(2, 2, 200))).unwrap();
    assert_eq!(&png[0..8], &[0x89, 0x50, 0x4E, 0x47, 0x0D, 0x0A, 0x1A, 0x0A]);
    assert!(get_icon(&mut cache, "q", |_p: &str| None).is_none());
}

#[test]
fn assemble_uses_own_alpha_and_swaps_channels() {
    // two BGRA pixels; the second has alpha
    let color = [1, 2, 3, 0, 4, 5, 6, 200];
    let (rgba, trust) = assemble_rgba(&color, None, 2, 1);
    assert!(trust);
    assert_eq!(rgba, vec![3, 2, 1, 0, 6, 5, 4, 200]);
}

#[test]
fn assemble_uses_mask_without_alpha() {
    // 3x1 image, no alpha; mask row is 4 bytes; bits 1,0,1 -> transparent, opaque, transparent
    let color = [10, 20, 30, 0, 11, 21, 31, 0, 12, 22, 32, 0];
    let mask = [0b1010_0000u8, 0, 0, 0];
    let (rgba, trust) = assemble_rgba(&color, Some(&mask), 3, 1);
    assert!(!trust);
    assert_eq!(rgba, vec![30, 20, 10, 0, 31, 21, 11, 255, 32, 22, 12, 0]);
}

#[test]
fn assemble_opaque_without_alpha_or_mask() {
    let color = [10, 20, 30, 0];
    let (rgba, trust) = assemble_rgba(&color, None, 1, 1);
    assert!(!trust);
    assert_eq!(rgba, vec![30, 20, 10, 255]);
}

#[test]
fn assemble_second_row_mask() {
    // 1x2 image; mask rows of 4 bytes each; second row transparent
    let color = [0, 0, 0, 0, 0, 0, 0, 0];
    let mask = [0u8, 0, 0, 0, 0x80, 0, 0, 0];
    let (rgba, _) = assemble_rgba(&color, Some(&mask), 1, 2);
    assert_eq!(rgba[3], 255);
    assert_eq!(rgba[7], 0);
}

#[test]
fn request_decodes_path_and_answers() {
    let mut cache: LruCache<Vec<u8>> = LruCache::new(4);
    let seen = std::cell::RefCell::new(String::new());
    let (status, ctype, body) = handle_request(&mut cache, "//C%3A%5Capp%20one.lnk", |p: &str| {
        *seen.borrow_mut() = p.to_string();
        Some(vec![1, 2, 3])
    });
    assert_eq!(*seen.borrow(), "C:\\app one.lnk");
    assert_eq!((status, ctype, body), (200, "image/png", Some(vec![1, 2, 3])));
    let (status, ctype, body) = handle_request(&mut cache, "/missing", |_p: &str| None);
    assert_eq!((status, ctype, body), (404, "text/plain", None));
    // served from the cache the second time
    let (status, _, body) = handle_request(&mut cache, "/C%3A%5Capp%20one.lnk", |_p: &str| None);
    assert_eq!((status, body), (200, Some(vec![1, 2, 3])));
}

#[test]
fn shortcut_paths() {
    assert!(is_shortcut_path("C:/a/B.LNK"));
    assert!(is_shortcut_path(".lnk"));
    assert!(!is_shortcut_path("lnk"));
    assert!(!is_shortcut_path("C:/a/b.exe"));
}

#[test]
fn backslashes() {
    assert_eq!(to_backslashes("C:/a/b"), "C:\\a\\b");
    assert_eq!(to_backslashes("plain"), "plain");
}

#[test]
fn lru_entry_survives_fewer_than_capacity_others() {
    let mut c: LruCache<u32> = LruCache::new(3);
    c.put("k".to_string(), 7);
    c.put("x".to_string(), 1);
    assert_eq!(c.get("y"), None);
    c.put("y".to_string(), 2);
    c.put("x".to_string(), 3);
    assert_eq!(c.get("x"), Some(3));
    // two other keys since "k" was last used: still there
    assert_eq!(c.get("k"), Some(7));
    c.put("x".to_string(), 4);
    c.put("y".to_string(), 5);
    c.put("z".to_string(), 6);
    // a third distinct other key pushed it out
    assert_eq!(c.get("k"), None);
}

#[test]
fn icon_stays_cached_through_other_paths() {
    let mut cache: LruCache<IconImage> = LruCache::new(MAX_ICON_CACHE);
    let first = get_icon_rgba(&mut cache, "keep", |_p: &str| Some(img(1, 1, 42))).unwrap();
    for i in 0..MAX_ICON_CACHE - 1 {
        let p = format!("other{i}");
        assert!(get_icon_rgba(&mut cache, &p, |_p: &str| Some(img(1, 1, 1))).is_some());
    }
    let calls = Cell::new(0);
    let again = get_icon_rgba(&mut cache, "keep", |_p: &str| {
        calls.set(calls.get() + 1);
        None
    })
    .unwrap();
    assert_eq!(calls.get(), 0);
    assert_eq!((again.width, again.height, again.rgba), (first.width, first.height, first.rgba));
    // as many distinct other paths as the cache holds push it out
    for i in 0..MAX_ICON_CACHE {
        let p = format!("fresh{i}");
        assert!(get_icon_rgba(&mut cache, &p, |_p: &str| Some(img(1, 1, 1))).is_some());
    }
    assert!(get_icon_rgba(&mut cache, "keep", |_p: &str| None).is_none());
}

#[test]
fn one_pixel_png_is_encoded() {
    let one = IconImage { width: 1, height: 1, rgba: vec![1, 2, 3, 4] };
    let png = encode_icon(&one).unwrap();
    assert_eq!(&png[0..8], &[0x89, 0x50, 0x4E, 0x47, 0x0D, 0x0A, 0x1A, 0x0A]);
    assert_eq!(&png[12..16], b"IHDR");
    assert_eq!(&png[16..24], &[0, 0, 0, 1, 0, 0, 0, 1]);
}

fn decode_png(bytes: &[u8]) -> (png::OutputInfo, Vec<u8>) {
    let decoder = png::Decoder::new(std::io::Cursor::new(bytes));
    let mut reader = decoder.read_info().expect("PNG 解码失败");
    let mut buf = vec![0u8; reader.output_buffer_size()];
    let info = reader.next_frame(&mut buf).expect("PNG 帧解码失败");
    buf.truncate(info.buffer_size());
    (info, buf)
}

#[test]
fn scan_and_extract_icon() {
    let mut scanned: Option<Vec<AppInfo>> = None;
    let apps = scan_cached(&mut scanned, || {
        vec![AppInfo { name: "记事本".to_string(), path: "C:/Notepad.lnk".to_string(), aliases: vec![] }]
    });
    let first = apps.first().expect("scan gives an application");
    // a 4x2 icon without alpha whose mask marks the corners transparent
    let color: Vec<u8> = (0..32u8).map(|i| if i % 4 == 3 { 0 } else { 100 + i }).collect();
    let mask = [0b1001_0000u8, 0, 0, 0, 0b1001_0000, 0, 0, 0];
    let mut cache: LruCache<IconImage> = LruCache::new(MAX_ICON_CACHE);
    let extracted = std::cell::RefCell::new(None);
    let png = get_icon(&mut cache, &first.path, |_p: &str| {
        let (rgba, _) = assemble_rgba(&color, Some(&mask), 4, 2);
        *extracted.borrow_mut() = Some(rgba.clone());
        Some(IconImage { width: 4, height: 2, rgba })
    });
    assert!(png.is_some(), "图标提取应成功: {}", first.path);
    let bytes = png.unwrap();
    assert!(bytes.len() > 8, "PNG 数据过短");
    assert_eq!(&bytes[0..8], &[0x89, 0x50, 0x4E, 0x47, 0x0D, 0x0A, 0x1A, 0x0A], "非合法 PNG");
    let (info, buf) = decode_png(&bytes);
    assert_eq!(info.color_type, png::ColorType::Rgba, "颜色类型应为 RGBA");
    assert_eq!(info.bit_depth, png::BitDepth::Eight);
    assert_eq!((info.width, info.height), (4, 2));
    assert_eq!(Some(buf.clone()), *extracted.borrow());
    let pixels = info.width as usize * info.height as usize;
    let transparent = (0..pixels).filter(|i| buf[i * 4 + 3] == 0).count();
    let opaque = (0..pixels).filter(|i| buf[i * 4 + 3] == 255).count();
    assert!(transparent > 0, "图标应含透明像素（圆角/边缘），但全为不透明 → alpha 通道被错误地填满");
    assert_eq!((transparent, opaque), (4, 4));
}

#[test]
fn png_decodes_back_to_the_icon() {
    let rgba: Vec<u8> = (0..3 * 5 * 4).map(|i| (i * 37 % 256) as u8).collect();
    let icon = IconImage { width: 3, height: 5, rgba: rgba.clone() };
    let bytes = encode_icon(&icon).unwrap();
    let (info, buf) = decode_png(&bytes);
    assert_eq!((info.width, info.height), (3, 5));
    assert_eq!(info.color_type, png::ColorType::Rgba);
    assert_eq!(info.bit_depth, png::BitDepth::Eight);
    assert_eq!(buf, rgba);
}
