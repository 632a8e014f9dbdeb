//! Application icons: decoded pixels, the cached lookup that serves them,
//! the assembly of RGBA pixels from the bitmaps a shell icon is made of,
//! PNG encoding, and the answer to an `appicon://` request.

use vstd::prelude::*;
use percent_encoding::percent_decode_str;
use crate::lru::{
    after_put, after_touch, apply_ops, has_key, keys_distinct, lemma_after_put_well_formed,
    lemma_entry_survives_calls, lemma_get_after_put, lemma_touch_keeps_contents, lookup, ops_for, requests_for, size_bound, LruCache,
};
use crate::text::{chars_of, string_of};

verus! {

/// The capacity of the icon caches.
pub const MAX_ICON_CACHE: usize = 128;

/// Decoded icon pixels (RGBA, straight alpha).
#[derive(Debug)]
pub struct IconImage {
    pub width: u32,
    pub height: u32,
    pub rgba: Vec<u8>,
}

/// The plain content of an [`IconImage`].
pub ghost struct IconImageView {
    pub width: u32,
    pub height: u32,
    pub rgba: Seq<u8>,
}

impl View for IconImage {
    type V = IconImageView;

    open spec fn view(&self) -> IconImageView {
        IconImageView { width: self.width, height: self.height, rgba: self.rgba@ }
    }
}

impl Clone for IconImage {
    fn clone(&self) -> (r: Self)
        ensures
            r@ == self@,
    {
        let mut rgba: Vec<u8> = Vec::new();
        let mut i: usize = 0;
        while i < self.rgba.len()
            invariant
                i <= self.rgba.len(),
                rgba@ == self.rgba@.take(i as int),
            decreases self.rgba.len() - i,
        {
            rgba.push(self.rgba[i]);
            i += 1;
            assert(rgba@ =~= self.rgba@.take(i as int));
        }
        assert(self.rgba@.take(self.rgba.len() as int) =~= self.rgba@);
        IconImage { width: self.width, height: self.height, rgba }
    }
}

/// Looks `key` up in the cache; on a miss asks `extract` for the value and
/// stores a clone of what it gives. The hit makes the entry the most recent.
pub fn fetch_cached<T: Clone, F: FnOnce(&str) -> Option<T>>(
    cache: &mut LruCache<T>,
    key: &str,
    extract: F,
) -> (r: Option<T>)
    requires
        call_requires(extract, (key,)),
    ensures
        final(cache).capacity() == old(cache).capacity(),
        keys_distinct(final(cache)@),
        final(cache)@.len() <= size_bound(final(cache).capacity()),
        requests_for(old(cache)@, final(cache)@, key@, old(cache).capacity()),
        has_key(old(cache)@, key@) ==> {
            &&& final(cache)@ == after_touch(old(cache)@, key@)
            &&& r is Some
            &&& cloned(lookup(old(cache)@, key@)->0, r->0)
        },
        !has_key(old(cache)@, key@) ==> {
            &&& call_ensures(extract, (key,), r)
            &&& match r {
                None => final(cache)@ == old(cache)@,
                Some(v) => exists|stored: T|
                    cloned(v, stored) && final(cache)@ == #[trigger] after_put(
                        old(cache)@,
                        key@,
                        stored,
                        old(cache).capacity(),
                    ),
            }
        },
{
    let ghost es = cache@;
    let ghost cap = cache.capacity();
    let ghost lookup_op = seq![(key@, None::<T>)];
    assert(apply_ops(es, lookup_op, cap) == after_touch(es, key@)) by {
        assert(lookup_op.drop_last() =~= Seq::<(Seq<char>, Option<T>)>::empty());
        assert(apply_ops(es, lookup_op.drop_last(), cap) == es);
    }
    assert(ops_for(lookup_op, key@));
    if let Some(hit) = cache.get(key) {
        return Some(hit);
    }
    let fresh = extract(key);
    store_extracted(cache, key, fresh)
}

/// Stores a clone of a freshly extracted value under `key` (after a miss on
/// `key`) and hands the value back; stores nothing for `None`.
pub fn store_extracted<T: Clone>(cache: &mut LruCache<T>, key: &str, fresh: Option<T>) -> (r: Option<T>)
    requires
        !has_key(old(cache)@, key@),
    ensures
        r == fresh,
        final(cache).capacity() == old(cache).capacity(),
        requests_for(old(cache)@, final(cache)@, key@, old(cache).capacity()),
        match fresh {
            None => final(cache)@ == old(cache)@,
            Some(v) => exists|stored: T|
                cloned(v, stored) && final(cache)@ == #[trigger] after_put(
                    old(cache)@,
                    key@,
                    stored,
                    old(cache).capacity(),
                ),
        },
{
    let ghost es = cache@;
    let ghost cap = cache.capacity();
    let ghost lookup_op = seq![(key@, None::<T>)];
    proof {
        assert(lookup_op.drop_last() =~= Seq::<(Seq<char>, Option<T>)>::empty());
        assert(apply_ops(es, lookup_op.drop_last(), cap) == es);
        assert(apply_ops(es, lookup_op, cap) == es);
        assert(ops_for(lookup_op, key@));
    }
    match fresh {
        Some(v) => {
            let stored = v.clone();
            let ghost ops = seq![(key@, None::<T>), (key@, Some(stored))];
            proof {
                assert(ops.drop_last() =~= lookup_op);
                assert(apply_ops(es, ops, cap) == after_put(es, key@, stored, cap));
                assert(ops_for(ops, key@));
            }
            cache.put(key.to_owned(), stored);
            Some(v)
        },
        None => None,
    }
}

/// The icon of the application at `path`, from the cache or, on a miss, from
/// `extract` (which is then cached).
pub fn get_icon_rgba<F: FnOnce(&str) -> Option<IconImage>>(
    cache: &mut LruCache<IconImage>,
    path: &str,
    extract: F,
) -> (r: Option<IconImage>)
    requires
        call_requires(extract, (path,)),
    ensures
        final(cache).capacity() == old(cache).capacity(),
        keys_distinct(final(cache)@),
        final(cache)@.len() <= size_bound(final(cache).capacity()),
        requests_for(old(cache)@, final(cache)@, path@, old(cache).capacity()),
        has_key(old(cache)@, path@) ==> {
            &&& final(cache)@ == after_touch(old(cache)@, path@)
            &&& r matches Some(img) && img@ == lookup(old(cache)@, path@)->0@
        },
        !has_key(old(cache)@, path@) ==> {
            &&& call_ensures(extract, (path,), r)
            &&& match r {
                None => final(cache)@ == old(cache)@,
                Some(img) => exists|stored: IconImage|
                    stored@ == img@ && final(cache)@ == #[trigger] after_put(
                        old(cache)@,
                        path@,
                        stored,
                        old(cache).capacity(),
                    ),
            }
        },
{
    fetch_cached(cache, path, extract)
}

/// The entries of an icon cache after a lookup of `path` that served an icon:
/// a hit makes the entry the most recent; a miss stores the extracted icon.
pub open spec fn after_served(es: Seq<(Seq<char>, IconImage)>, path: Seq<char>, stored: IconImage) -> Seq<
    (Seq<char>, IconImage),
> {
    if has_key(es, path) {
        after_touch(es, path)
    } else {
        after_put(es, path, stored, MAX_ICON_CACHE as nat)
    }
}

/// An icon once served stays cached while fewer than [`MAX_ICON_CACHE`] other
/// paths are asked for. `es` is the cache before the lookup of `path` that
/// served an icon (`stored` is what a miss stored); `states` are the cache
/// after it and after each later lookup, lookup `j` asking for `paths[j]`
/// (as [`get_icon_rgba`] states each call). If no later lookup asked for
/// `path` and fewer than [`MAX_ICON_CACHE`] distinct paths were asked for,
/// `path` is still cached with the same pixels, so the next lookup of it is a
/// hit that gives them back and extracts nothing.
pub proof fn lemma_icon_stays_cached(
    es: Seq<(Seq<char>, IconImage)>,
    path: Seq<char>,
    stored: IconImage,
    states: Seq<Seq<(Seq<char>, IconImage)>>,
    paths: Seq<Seq<char>>,
)
    requires
        keys_distinct(es),
        es.len() <= size_bound(MAX_ICON_CACHE as nat),
        states.len() == paths.len() + 1,
        states[0] == after_served(es, path, stored),
        forall|j: int|
            0 <= j < paths.len() ==> requests_for(
                states[j],
                states[j + 1],
                #[trigger] paths[j],
                MAX_ICON_CACHE as nat,
            ),
        forall|j: int| 0 <= j < paths.len() ==> (#[trigger] paths[j]) != path,
        paths.to_set().len() < MAX_ICON_CACHE,
    ensures
        has_key(states.last(), path),
        lookup(states.last(), path) == (if has_key(es, path) {
            lookup(es, path)
        } else {
            Some(stored)
        }),
{
    let cap = MAX_ICON_CACHE as nat;
    if has_key(es, path) {
        lemma_touch_keeps_contents(es, path, path);
    } else {
        lemma_after_put_well_formed(es, path, stored, cap);
        lemma_get_after_put(es, path, stored, cap);
    }
    lemma_entry_survives_calls(states, paths, path, cap);
}

/// The PNG file that the `png` crate writes for an 8-bit RGBA image of the
/// given size and pixels, or `None` when it refuses them.
pub uninterp spec fn png_rgba8(width: u32, height: u32, rgba: Seq<u8>) -> Option<Seq<u8>>;

/// The eight bytes every PNG file starts with.
pub open spec fn png_signature() -> Seq<u8> {
    seq![137u8, 80u8, 78u8, 71u8, 13u8, 10u8, 26u8, 10u8]
}

/// Encodes RGBA pixels as PNG with `png::Encoder` (colour type RGBA, depth
/// eight). The bytes are only named, except for what the encoder's source
/// shows: a zero width or height, or a buffer of another length than
/// `width * height * 4`, is refused; any other image is encoded (writing to a
/// vector cannot fail, and every chunk stays within the encoder's size
/// limit); an encoded file starts with the PNG signature.
#[verifier::external_body]
pub(crate) fn encode_png(width: u32, height: u32, rgba: &[u8]) -> (r: Option<Vec<u8>>)
    requires
        width * height * 4 <= usize::MAX,
    ensures
        match r {
            Some(b) => png_rgba8(width, height, rgba@) == Some(b@) && b@.len() >= 8 && b@.take(8)
                == png_signature(),
            None => png_rgba8(width, height, rgba@) is None,
        },
        (width == 0 || height == 0 || rgba@.len() != width * height * 4) ==> r is None,
        (width > 0 && height > 0 && rgba@.len() == width * height * 4) ==> r is Some,
{
    let mut out = Vec::new();
    {
        let mut encoder = png::Encoder::new(&mut out, width, height);
        encoder.set_color(png::ColorType::Rgba);
        encoder.set_depth(png::BitDepth::Eight);
        let mut writer = encoder.write_header().ok()?;
        writer.write_image_data(rgba).ok()?;
    }
    Some(out)
}

/// The PNG file made of an icon: none for no icon or for an icon too large
/// to address, else what [`encode_png`] writes for it.
pub open spec fn png_of(img: Option<IconImageView>) -> Option<Seq<u8>> {
    match img {
        None => None,
        Some(v) => if v.width * v.height > usize::MAX / 4 {
            None
        } else {
            png_rgba8(v.width, v.height, v.rgba)
        },
    }
}

/// The bytes of an optional byte vector.
pub open spec fn bytes_view(b: Option<Vec<u8>>) -> Option<Seq<u8>> {
    match b {
        Some(v) => Some(v@),
        None => None,
    }
}

/// The plain content of an optional icon.
pub open spec fn icon_view(i: Option<IconImage>) -> Option<IconImageView> {
    match i {
        Some(v) => Some(v@),
        None => None,
    }
}

/// The icon of `path` as a PNG file: the cached icon (or, on a miss, the one
/// `extract` gives, which is then cached) encoded as PNG.
pub fn get_icon<F: FnOnce(&str) -> Option<IconImage>>(
    cache: &mut LruCache<IconImage>,
    path: &str,
    extract: F,
) -> (r: Option<Vec<u8>>)
    requires
        call_requires(extract, (path,)),
    ensures
        final(cache).capacity() == old(cache).capacity(),
        has_key(old(cache)@, path@) ==> {
            &&& final(cache)@ == after_touch(old(cache)@, path@)
            &&& bytes_view(r) == png_of(Some(lookup(old(cache)@, path@)->0@))
            &&& (r is Some <==> encodable(lookup(old(cache)@, path@)->0@))
        },
        !has_key(old(cache)@, path@) ==> exists|img: Option<IconImage>|
            #[trigger] call_ensures(extract, (path,), img) && bytes_view(r) == png_of(icon_view(img))
                && (r is Some <==> (img matches Some(i) && encodable(i@))) && match img {
                None => final(cache)@ == old(cache)@,
                Some(i) => exists|stored: IconImage|
                    stored@ == i@ && final(cache)@ == #[trigger] after_put(
                        old(cache)@,
                        path@,
                        stored,
                        old(cache).capacity(),
                    ),
            },
{
    match get_icon_rgba(cache, path, extract) {
        Some(img) => encode_icon(&img),
        None => None,
    }
}

/// An icon the encoder accepts: a non-empty size small enough to address,
/// with four bytes per pixel.
pub open spec fn encodable(v: IconImageView) -> bool {
    &&& v.width > 0
    &&& v.height > 0
    &&& v.width * v.height <= usize::MAX / 4
    &&& v.rgba.len() == v.width * v.height * 4
}

/// Encodes an icon as PNG; an icon too large to address is not encoded.
pub fn encode_icon(img: &IconImage) -> (r: Option<Vec<u8>>)
    ensures
        bytes_view(r) == png_of(Some(img@)),
        r matches Some(b) ==> b@.len() >= 8 && b@.take(8) == png_signature(),
        r is Some <==> encodable(img@),
{
    let w = img.width as u64;
    let h = img.height as u64;
    assert(w * h <= u64::MAX) by (nonlinear_arith)
        requires
            w <= u32::MAX,
            h <= u32::MAX,
    ;
    if w * h > (usize::MAX / 4) as u64 {
        return None;
    }
    encode_png(img.width, img.height, img.rgba.as_slice())
}

/// The number of bytes in one row of a 1-bit mask bitmap of width `w`
/// (rows are padded to whole 32-bit words).
pub open spec fn mask_row_bytes(w: int) -> int {
    (w + 31) / 32 * 4
}

/// The mask bit of pixel (`x`, `y`): bit `7 - x % 8` of byte `x / 8` of row
/// `y`. A set bit marks a transparent pixel.
pub open spec fn mask_bit(mask: Seq<u8>, w: int, x: int, y: int) -> u8 {
    (mask[y * mask_row_bytes(w) + x / 8] >> ((7 - x % 8) as u8)) & 1u8
}

/// The sum of the alpha bytes of the first `n` BGRA pixels.
pub open spec fn alpha_sum(color: Seq<u8>, n: nat) -> nat
    decreases n,
{
    if n == 0 {
        0
    } else {
        alpha_sum(color, (n - 1) as nat) + color[4 * (n - 1) + 3] as nat
    }
}

/// The alpha bytes of the first `n` pixels sum to more than zero exactly when
/// one of them is not zero.
pub proof fn lemma_alpha_sum_positive(color: Seq<u8>, n: nat)
    requires
        color.len() >= 4 * n,
    ensures
        alpha_sum(color, n) > 0 <==> exists|i: int| 0 <= i < n && #[trigger] color[4 * i + 3] != 0,
    decreases n,
{
    if n > 0 {
        lemma_alpha_sum_positive(color, (n - 1) as nat);
        if alpha_sum(color, (n - 1) as nat) > 0 {
            let i = choose|i: int| 0 <= i < n - 1 && #[trigger] color[4 * i + 3] != 0;
            assert(0 <= i < n && color[4 * i + 3] != 0);
        } else if color[4 * (n - 1) + 3] != 0 {
            assert(color[4 * (n - 1) + 3] != 0);
        } else {
            assert forall|i: int| 0 <= i < n implies !(#[trigger] color[4 * i + 3] != 0) by {
                if i < n - 1 {
                    if color[4 * i + 3] != 0 {
                        assert(0 <= i < n - 1);
                    }
                }
            }
        }
    }
}

/// The alpha of pixel (`x`, `y`): the colour bitmap's own alpha when it has
/// any; otherwise transparent where the mask bit is set and opaque elsewhere;
/// opaque when there is no mask either.
pub open spec fn pixel_alpha(
    color: Seq<u8>,
    mask: Option<Seq<u8>>,
    w: int,
    x: int,
    y: int,
    trust_alpha: bool,
) -> u8 {
    if trust_alpha {
        color[4 * (y * w + x) + 3]
    } else {
        match mask {
            Some(m) => if mask_bit(m, w, x, y) == 1 {
                0
            } else {
                255
            },
            None => 255,
        }
    }
}

/// The four RGBA bytes of pixel (`x`, `y`) stand in `out`: red, green and
/// blue from the BGRA colour bitmap, alpha as [`pixel_alpha`] says.
pub open spec fn pixel_assembled(
    out: Seq<u8>,
    color: Seq<u8>,
    mask: Option<Seq<u8>>,
    w: int,
    x: int,
    y: int,
    trust_alpha: bool,
) -> bool {
    let i = 4 * (y * w + x);
    &&& out[i] == color[i + 2]
    &&& out[i + 1] == color[i + 1]
    &&& out[i + 2] == color[i]
    &&& out[i + 3] == pixel_alpha(color, mask, w, x, y, trust_alpha)
}

/// What an assembled pixel holds, byte by byte: red, green and blue are the
/// colour bitmap's third, second and first byte; with the bitmap's own alpha
/// trusted, the alpha is its fourth byte; otherwise it is 0 (transparent)
/// where bit `7 - x % 8` of byte `x / 8` of the mask's row `y` is set, and
/// 255 (opaque) where it is clear or there is no mask.
pub proof fn lemma_assembled_pixel(
    out: Seq<u8>,
    color: Seq<u8>,
    mask: Option<Seq<u8>>,
    w: int,
    x: int,
    y: int,
    trust_alpha: bool,
)
    requires
        pixel_assembled(out, color, mask, w, x, y, trust_alpha),
    ensures
        out[4 * (y * w + x)] == color[4 * (y * w + x) + 2],
        out[4 * (y * w + x) + 1] == color[4 * (y * w + x) + 1],
        out[4 * (y * w + x) + 2] == color[4 * (y * w + x)],
        trust_alpha ==> out[4 * (y * w + x) + 3] == color[4 * (y * w + x) + 3],
        !trust_alpha && mask is None ==> out[4 * (y * w + x) + 3] == 255,
        !trust_alpha && mask is Some ==> {
            let byte = mask->0[y * ((w + 31) / 32 * 4) + x / 8];
            &&& (byte >> ((7 - x % 8) as u8)) & 1u8 == 1 ==> out[4 * (y * w + x) + 3] == 0
            &&& (byte >> ((7 - x % 8) as u8)) & 1u8 == 0 ==> out[4 * (y * w + x) + 3] == 255
        },
{
}

proof fn lemma_pixel_bounds(w: int, h: int, x: int, y: int)
    requires
        0 <= x < w,
        0 <= y < h,
    ensures
        0 <= y * w + x < w * h,
        (y + 1) * w == y * w + w,
        y * w + w <= w * h,
        x / 8 < mask_row_bytes(w),
        y * mask_row_bytes(w) + mask_row_bytes(w) <= mask_row_bytes(w) * h,
        (y + 1) * mask_row_bytes(w) == y * mask_row_bytes(w) + mask_row_bytes(w),
        0 <= y * mask_row_bytes(w),
{
    assert(0 <= y * w + x < w * h) by (nonlinear_arith)
        requires
            0 <= x < w,
            0 <= y < h,
    ;
    assert((y + 1) * w == y * w + w) by (nonlinear_arith);
    assert(y * w + w <= w * h) by (nonlinear_arith)
        requires
            0 <= y < h,
            0 < w,
    ;
    let rb = mask_row_bytes(w);
    assert(x / 8 < rb) by (nonlinear_arith)
        requires
            0 <= x < w,
            rb == (w + 31) / 32 * 4,
    ;
    assert(y * rb + rb <= rb * h) by (nonlinear_arith)
        requires
            0 <= y < h,
            0 <= rb,
    ;
    assert((y + 1) * rb == y * rb + rb) by (nonlinear_arith);
    assert(0 <= y * rb) by (nonlinear_arith)
        requires
            0 <= y,
            0 <= rb,
    ;
}

proof fn lemma_earlier_pixel(w: int, xx: int, yy: int, x: int, y: int)
    requires
        0 <= xx < w,
        0 <= yy <= y,
        0 <= x,
        yy < y || xx < x,
    ensures
        4 * (yy * w + xx) + 3 < 4 * (y * w + x),
{
    if yy < y {
        assert(yy * w + w <= y * w) by (nonlinear_arith)
            requires
                yy < y,
                0 <= w,
        ;
    }
}

/// The bytes of an optional mask bitmap.
pub open spec fn mask_view(mask: Option<&[u8]>) -> Option<Seq<u8>> {
    match mask {
        Some(m) => Some(m@),
        None => None,
    }
}

/// Assembles the RGBA pixels of an icon from its 32-bit BGRA colour bitmap
/// (top-down, `w * h` pixels) and, when it could be read, its 1-bit mask.
/// Also says whether the colour bitmap's own alpha was used (some pixel has a
/// non-zero alpha); only then may its colours still be premultiplied.
pub fn assemble_rgba(color: &[u8], mask: Option<&[u8]>, w: usize, h: usize) -> (r: (Vec<u8>, bool))
    requires
        color@.len() == w * h * 4,
        w * h * 255 <= u32::MAX,
        mask matches Some(m) ==> m@.len() == mask_row_bytes(w as int) * h,
    ensures
        r.0@.len() == w * h * 4,
        r.1 == (alpha_sum(color@, (w * h) as nat) > 0),
        r.1 == (exists|i: int| 0 <= i < w * h && #[trigger] color@[4 * i + 3] != 0),
        forall|x: int, y: int|
            0 <= x < w && 0 <= y < h ==> #[trigger] pixel_assembled(
                r.0@,
                color@,
                mask_view(mask),
                w as int,
                x,
                y,
                r.1,
            ),
{
    let ghost mview: Option<Seq<u8>> = mask_view(mask);
    let n = color.len() / 4;
    assert(n == w * h);
    let mut sum: u32 = 0;
    let mut k: usize = 0;
    while k < n
        invariant
            n == w * h,
            color@.len() == n * 4,
            n * 255 <= u32::MAX,
            k <= n,
            sum == alpha_sum(color@, k as nat),
            sum <= k * 255,
        decreases n - k,
    {
        sum = sum + color[k * 4 + 3] as u32;
        k += 1;
    }
    proof {
        lemma_alpha_sum_positive(color@, n as nat);
    }
    let trust_alpha = sum > 0;
    let use_mask = !trust_alpha && mask.is_some();
    let mut out: Vec<u8> = Vec::new();
    if w == 0 || h == 0 {
        proof {
            assert(w * h == 0) by (nonlinear_arith)
                requires
                    w == 0 || h == 0,
            ;
        }
        return (out, trust_alpha);
    }
    assert(w * 255 <= u32::MAX) by (nonlinear_arith)
        requires
            w * h * 255 <= u32::MAX,
            h >= 1,
    ;
    let row_bytes = (w + 31) / 32 * 4;
    let mut y: usize = 0;
    while y < h
        invariant
            color@.len() == w * h * 4,
            n == w * h,
            y <= h,
            row_bytes == mask_row_bytes(w as int),
            mview == mask_view(mask),
            mask matches Some(m) ==> m@.len() == row_bytes * h,
            use_mask == (!trust_alpha && mask is Some),
            out@.len() == 4 * (y * w),
            forall|xx: int, yy: int|
                0 <= xx < w && 0 <= yy < y ==> #[trigger] pixel_assembled(
                    out@,
                    color@,
                    mview,
                    w as int,
                    xx,
                    yy,
                    trust_alpha,
                ),
        decreases h - y,
    {
        let mut x: usize = 0;
        while x < w
            invariant
                color@.len() == w * h * 4,
                n == w * h,
                y < h,
                x <= w,
                row_bytes == mask_row_bytes(w as int),
                mview == mask_view(mask),
                mask matches Some(m) ==> m@.len() == row_bytes * h,
                use_mask == (!trust_alpha && mask is Some),
                out@.len() == 4 * (y * w + x),
                forall|xx: int, yy: int|
                    0 <= xx < w && 0 <= yy < y ==> #[trigger] pixel_assembled(
                        out@,
                        color@,
                        mview,
                        w as int,
                        xx,
                        yy,
                        trust_alpha,
                    ),
                forall|xx: int|
                    0 <= xx < x ==> #[trigger] pixel_assembled(
                        out@,
                        color@,
                        mview,
                        w as int,
                        xx,
                        y as int,
                        trust_alpha,
                    ),
            decreases w - x,
        {
            proof {
                lemma_pixel_bounds(w as int, h as int, x as int, y as int);
            }
            let i = y * w + x;
            assert(i * 4 + 3 < color@.len());
            assert(color@.len() == color.len());
            assert(i * 4 <= usize::MAX);
            let b = color[i * 4];
            let g = color[i * 4 + 1];
            let rr = color[i * 4 + 2];
            let a: u8 = if trust_alpha {
                color[i * 4 + 3]
            } else if use_mask {
                let m = mask.unwrap();
                assert(m@ == mview->0);
                assert(y * row_bytes + x / 8 < m@.len());
                assert(m@.len() == m.len());
                let byte = m[y * row_bytes + x / 8];
                let shift: u8 = (7 - x % 8) as u8;
                let bit = (byte >> shift) & 1u8;
                assert(bit == mask_bit(m@, w as int, x as int, y as int));
                if bit == 1 {
                    0
                } else {
                    255
                }
            } else {
                255
            };
            assert(a == pixel_alpha(color@, mview, w as int, x as int, y as int, trust_alpha));
            let ghost before = out@;
            out.push(rr);
            out.push(g);
            out.push(b);
            out.push(a);
            assert(forall|j: int| 0 <= j < before.len() ==> out@[j] == before[j]);
            assert(pixel_assembled(out@, color@, mview, w as int, x as int, y as int, trust_alpha));
            assert forall|xx: int, yy: int|
                0 <= xx < w && 0 <= yy <= y && (yy < y || xx < x) implies #[trigger] pixel_assembled(
                out@,
                color@,
                mview,
                w as int,
                xx,
                yy,
                trust_alpha,
            ) by {
                lemma_earlier_pixel(w as int, xx, yy, x as int, y as int);
                assert(pixel_assembled(before, color@, mview, w as int, xx, yy, trust_alpha));
            }
            x += 1;
        }
        proof {
            if w > 0 {
                lemma_pixel_bounds(w as int, h as int, 0, y as int);
            } else {
                assert(y * w == 0 && (y + 1) * w == 0) by (nonlinear_arith)
                    requires
                        w == 0,
                ;
            }
        }
        y += 1;
    }
    assert(4 * (h * w) == w * h * 4) by (nonlinear_arith);
    (out, trust_alpha)
}

/// What `percent_encoding::percent_decode_str(..).decode_utf8_lossy()` gives
/// for a string: `%XX` escapes decoded, invalid UTF-8 replaced by U+FFFD.
pub uninterp spec fn percent_decoded(raw: Seq<char>) -> Seq<char>;

/// Calls `percent_encoding::percent_decode_str` and `decode_utf8_lossy`; the
/// decoded text is only named here.
#[verifier::external_body]
fn percent_decode_lossy(raw: &str) -> (r: String)
    ensures
        r@ == percent_decoded(raw@),
{
    percent_decode_str(raw).decode_utf8_lossy().into_owned()
}

/// `s` without its leading `'/'` characters (`str::trim_start_matches('/')`).
pub open spec fn without_leading_slashes(s: Seq<char>) -> Seq<char>
    decreases s.len(),
{
    if s.len() > 0 && s[0] == '/' {
        without_leading_slashes(s.drop_first())
    } else {
        s
    }
}

fn strip_leading_slashes(s: &Vec<char>) -> (r: Vec<char>)
    ensures
        r@ == without_leading_slashes(s@),
{
    let mut i: usize = 0;
    assert(s@.skip(0) =~= s@);
    while i < s.len() && s[i] == '/'
        invariant
            i <= s.len(),
            without_leading_slashes(s@.skip(i as int)) == without_leading_slashes(s@),
        decreases s.len() - i,
    {
        assert(s@.skip(i as int).drop_first() =~= s@.skip(i + 1));
        i += 1;
    }
    let mut r: Vec<char> = Vec::new();
    let mut j: usize = i;
    while j < s.len()
        invariant
            i <= j <= s.len(),
            r@ == s@.subrange(i as int, j as int),
        decreases s.len() - j,
    {
        r.push(s[j]);
        j += 1;
        assert(r@ =~= s@.subrange(i as int, j as int));
    }
    assert(r@ =~= s@.skip(i as int));
    if i < s.len() {
        assert(s@.skip(i as int)[0] == s@[i as int]);
    }
    r
}

/// The application path an `appicon://` request asks for: the request path
/// without its leading slashes, percent-decoded.
pub open spec fn requested_path(path_part: Seq<char>) -> Seq<char> {
    percent_decoded(without_leading_slashes(path_part))
}

/// Answers an `appicon://` request: `(200, "image/png", Some(png))` when the
/// icon of the requested application is cached or can be extracted, and
/// `(404, "text/plain", None)` otherwise.
pub fn handle_request<F: FnOnce(&str) -> Option<Vec<u8>>>(
    cache: &mut LruCache<Vec<u8>>,
    path_part: &str,
    extract: F,
) -> (r: (u16, &'static str, Option<Vec<u8>>))
    requires
        forall|p: &str| call_requires(extract, (p,)),
    ensures
        r.2 is Some ==> r.0 == 200 && r.1@ == "image/png"@,
        r.2 is None ==> r.0 == 404 && r.1@ == "text/plain"@,
        final(cache).capacity() == old(cache).capacity(),
        has_key(old(cache)@, requested_path(path_part@)) ==> {
            &&& final(cache)@ == after_touch(old(cache)@, requested_path(path_part@))
            &&& r.2 matches Some(b) && cloned(lookup(old(cache)@, requested_path(path_part@))->0, b)
        },
        !has_key(old(cache)@, requested_path(path_part@)) ==> exists|p: &str|
            p@ == requested_path(path_part@) && #[trigger] call_ensures(extract, (p,), r.2) && match r.2 {
                None => final(cache)@ == old(cache)@,
                Some(b) => exists|stored: Vec<u8>|
                    cloned(b, stored) && final(cache)@ == #[trigger] after_put(
                        old(cache)@,
                        requested_path(path_part@),
                        stored,
                        old(cache).capacity(),
                    ),
            },
{
    let chars = chars_of(path_part);
    let stripped = strip_leading_slashes(&chars);
    let raw = string_of(&stripped);
    let decoded = percent_decode_lossy(raw.as_str());
    let key = decoded.as_str();
    match fetch_cached(cache, key, extract) {
        Some(png) => (200, "image/png", Some(png)),
        None => (404, "text/plain", None),
    }
}

/// `c` with ASCII upper-case letters lowered (`char::to_ascii_lowercase`).
pub open spec fn ascii_lower(c: char) -> char {
    if 'A' <= c <= 'Z' {
        ((c as u32) + 32) as char
    } else {
        c
    }
}

/// Whether a path names a `.lnk` shortcut (its extension compared without
/// regard to ASCII case). Icons of shortcuts are taken from their targets,
/// so that the shortcut arrow does not appear.
pub fn is_shortcut_path(path: &str) -> (r: bool)
    ensures
        r == (path@.len() >= 4 && path@.skip(path@.len() - 4).map_values(|c: char| ascii_lower(c))
            == seq!['.', 'l', 'n', 'k']),
{
    let chars = chars_of(path);
    let n = chars.len();
    if n < 4 {
        return false;
    }
    let ghost tail = chars@.skip(n - 4).map_values(|c: char| ascii_lower(c));
    let mut lowered: Vec<char> = Vec::new();
    let mut i: usize = n - 4;
    while i < n
        invariant
            n == chars.len(),
            n >= 4,
            n - 4 <= i <= n,
            lowered@ == chars@.subrange(n - 4, i as int).map_values(|c: char| ascii_lower(c)),
        decreases n - i,
    {
        let c = chars[i];
        let l = if 'A' <= c && c <= 'Z' {
            char_from_ascii_upper(c)
        } else {
            c
        };
        lowered.push(l);
        i += 1;
        assert(lowered@ =~= chars@.subrange(n - 4, i as int).map_values(|c: char| ascii_lower(c)));
    }
    assert(chars@.subrange(n - 4, n as int) =~= chars@.skip(n - 4));
    let r = lowered[0] == '.' && lowered[1] == 'l' && lowered[2] == 'n' && lowered[3] == 'k';
    assert(r == (lowered@ == seq!['.', 'l', 'n', 'k'])) by {
        if r {
            assert(lowered@ =~= seq!['.', 'l', 'n', 'k']);
        }
    }
    r
}

fn char_from_ascii_upper(c: char) -> (r: char)
    requires
        'A' <= c <= 'Z',
    ensures
        r == ascii_lower(c),
{
    let b = c as u8;
    (b + 32) as char
}

/// `path` with every `'/'` turned into `'\\'` (the Windows shell does not
/// accept forward slashes everywhere).
pub fn to_backslashes(path: &str) -> (r: String)
    ensures
        r@ == path@.map_values(|c: char| if c == '/' { '\\' } else { c }),
{
    let chars = chars_of(path);
    let mut out: Vec<char> = Vec::new();
    let mut i: usize = 0;
    while i < chars.len()
        invariant
            i <= chars.len(),
            out@ == chars@.take(i as int).map_values(|c: char| if c == '/' { '\\' } else { c }),
        decreases chars.len() - i,
    {
        let c = chars[i];
        out.push(if c == '/' { '\\' } else { c });
        i += 1;
        assert(out@ =~= chars@.take(i as int).map_values(
            |c: char| if c == '/' { '\\' } else { c },
        ));
    }
    assert(chars@.take(chars.len() as int) =~= chars@);
    string_of(&out)
}

} // verus!
