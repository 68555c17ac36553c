//! Configuration parsing for the card catalog: encoder backends, thread
//! settings, cache formats, aspect ratios, crop geometry, and which
//! image files are acceptable sources.

use vstd::prelude::*;
use vstd::string::StrSliceExecFns;
use vstd::string::StringExecFns;
use crate::text::{
    dec_str, dec_string, parse_usize, parses_to, str_eq, str_eq_nocase, str_eq_nocase_spec, trim,
    trim_spec,
};

verus! {

/// The AVIF quality the catalog encodes with.
pub const QUALITY: u8 = 80;

/// The AVIF encoder speed the catalog encodes with.
pub const SPEED: u8 = 6;

/// Which AVIF encoder implementation the catalog uses.
#[derive(Debug, Clone, Copy, PartialEq, Eq, Structural)]
pub enum EncoderBackend {
    Native,
    Ravif,
}

/// How many threads the encoder may use.
#[derive(Debug, Clone, Copy, PartialEq, Eq, Structural)]
pub enum ThreadSetting {
    Auto,
    Fixed(usize),
}

/// The configured tag of a backend.
pub open spec fn backend_tag(b: EncoderBackend) -> Seq<char> {
    match b {
        EncoderBackend::Native => "native"@,
        EncoderBackend::Ravif => "ravif"@,
    }
}

/// The configured tag of a thread setting.
pub open spec fn threads_tag(t: ThreadSetting) -> Seq<char> {
    match t {
        ThreadSetting::Auto => "auto"@,
        ThreadSetting::Fixed(n) => dec_str(n as int),
    }
}

impl EncoderBackend {
    /// Parse the backend from its environment value, case-insensitively
    /// and ignoring surrounding whitespace.
    pub fn from_env_value(raw: &str) -> (r: Option<EncoderBackend>)
        ensures
            r == Some(EncoderBackend::Native) <==> str_eq_nocase_spec(trim_spec(raw@), "native"@),
            r == Some(EncoderBackend::Ravif) <==> (!str_eq_nocase_spec(trim_spec(raw@), "native"@)
                && str_eq_nocase_spec(trim_spec(raw@), "ravif"@)),
            r is None <==> (!str_eq_nocase_spec(trim_spec(raw@), "native"@)
                && !str_eq_nocase_spec(trim_spec(raw@), "ravif"@)),
    {
        let t = trim(raw);
        if str_eq_nocase(t, "native") {
            Some(EncoderBackend::Native)
        } else if str_eq_nocase(t, "ravif") {
            Some(EncoderBackend::Ravif)
        } else {
            None
        }
    }

    /// The environment value naming this backend.
    pub fn env_value(self) -> (r: &'static str)
        ensures
            r@ == backend_tag(self),
    {
        match self {
            EncoderBackend::Native => "native",
            EncoderBackend::Ravif => "ravif",
        }
    }
}

impl ThreadSetting {
    /// Parse the thread setting: `auto`, or a positive thread count.
    pub fn from_env_value(raw: &str) -> (r: Option<ThreadSetting>)
        ensures
            str_eq_nocase_spec(trim_spec(raw@), "auto"@) ==> r == Some(ThreadSetting::Auto),
            !str_eq_nocase_spec(trim_spec(raw@), "auto"@) ==> (match r {
                Some(t) => t matches ThreadSetting::Fixed(n) && n > 0 && parses_to(
                    trim_spec(raw@),
                ) == Some(n as int),
                None => match parses_to(trim_spec(raw@)) {
                    Some(v) => v == 0 || v > usize::MAX,
                    None => true,
                },
            }),
    {
        let t = trim(raw);
        if str_eq_nocase(t, "auto") {
            return Some(ThreadSetting::Auto);
        }
        match parse_usize(t) {
            Some(n) => {
                if n == 0 {
                    None
                } else {
                    Some(ThreadSetting::Fixed(n))
                }
            },
            None => None,
        }
    }

    /// The environment value naming this setting.
    pub fn env_value(self) -> (r: String)
        ensures
            r@ == threads_tag(self),
    {
        match self {
            ThreadSetting::Auto => {
                let s: &str = "auto";
                s.to_owned()
            },
            ThreadSetting::Fixed(threads) => dec_string(threads),
        }
    }
}

/// The cache descriptor for one encoder configuration, used to address
/// normalized images by content and transform.
pub fn encoding_descriptor(backend: EncoderBackend, threads: ThreadSetting) -> (r: String)
    ensures
        r@ == "fmt=avif|backend="@ + backend_tag(backend) + "|quality=80|speed=6|threads="@
            + threads_tag(threads) + "|channels=rgb"@,
{
    let head: &str = "fmt=avif|backend=";
    let mut s = head.to_owned();
    s.append(backend.env_value());
    let mid: &str = "|quality=80|speed=6|threads=";
    s.append(mid);
    let tv = threads.env_value();
    s.append(tv.as_str());
    let tail: &str = "|channels=rgb";
    s.append(tail);
    s
}

/// The format normalized card images are cached in.
#[derive(Debug, Clone, Copy, PartialEq, Eq, Structural)]
pub enum CacheImageFormat {
    Avif,
    Jpeg,
}

impl CacheImageFormat {
    /// Parse the cache format from its environment value.
    pub fn from_env_value(raw: &str) -> (r: Option<CacheImageFormat>)
        ensures
            r == Some(CacheImageFormat::Avif) <==> str_eq_nocase_spec(trim_spec(raw@), "avif"@),
            r == Some(CacheImageFormat::Jpeg) <==> (!str_eq_nocase_spec(trim_spec(raw@), "avif"@)
                && (str_eq_nocase_spec(trim_spec(raw@), "jpeg"@) || str_eq_nocase_spec(
                trim_spec(raw@),
                "jpg"@,
            ))),
    {
        let t = trim(raw);
        if str_eq_nocase(t, "avif") {
            Some(CacheImageFormat::Avif)
        } else if str_eq_nocase(t, "jpeg") || str_eq_nocase(t, "jpg") {
            Some(CacheImageFormat::Jpeg)
        } else {
            None
        }
    }

    /// The environment value naming this format.
    pub fn env_value(self) -> (r: &'static str)
        ensures
            self == CacheImageFormat::Avif ==> r@ == "avif"@,
            self == CacheImageFormat::Jpeg ==> r@ == "jpeg"@,
    {
        match self {
            CacheImageFormat::Avif => "avif",
            CacheImageFormat::Jpeg => "jpeg",
        }
    }

    /// The file extension cached images carry.
    pub fn file_extension(self) -> (r: &'static str)
        ensures
            self == CacheImageFormat::Avif ==> r@ == "avif"@,
            self == CacheImageFormat::Jpeg ==> r@ == "jpg"@,
    {
        match self {
            CacheImageFormat::Avif => "avif",
            CacheImageFormat::Jpeg => "jpg",
        }
    }

    /// The MIME type cached images are served with.
    pub fn mime_type(self) -> (r: &'static str)
        ensures
            self == CacheImageFormat::Avif ==> r@ == "image/avif"@,
            self == CacheImageFormat::Jpeg ==> r@ == "image/jpeg"@,
    {
        match self {
            CacheImageFormat::Avif => "image/avif",
            CacheImageFormat::Jpeg => "image/jpeg",
        }
    }
}

/// What an aspect-ratio string means: exactly one colon, and a positive
/// 32-bit number on each side of it.
pub open spec fn ratio_parses(s: Seq<char>, w: int, h: int) -> bool {
    exists|i: int|
        {
            &&& 0 <= i < s.len()
            &&& #[trigger] s[i] == ':'
            &&& (forall|j: int| 0 <= j < s.len() && j != i ==> s[j] != ':')
            &&& parses_to(trim_spec(s.subrange(0, i))) == Some(w)
            &&& parses_to(trim_spec(s.subrange(i + 1, s.len() as int))) == Some(h)
            &&& 0 < w <= u32::MAX
            &&& 0 < h <= u32::MAX
        }
}

/// Parse an aspect ratio such as `2:3`, rejecting zero sides.
pub fn parse_ratio(raw: &str) -> (r: Option<(u32, u32)>)
    ensures
        match r {
            Some(p) => ratio_parses(raw@, p.0 as int, p.1 as int),
            None => forall|w: int, h: int| !ratio_parses(raw@, w, h),
        },
{
    let n = raw.unicode_len();
    let mut colon: usize = n;
    let mut colons: usize = 0;
    let mut i: usize = 0;
    while i < n
        invariant
            i <= n,
            n == raw@.len(),
            colons <= i,
            colons == 0 ==> colon == n && (forall|j: int| 0 <= j < i ==> raw@[j] != ':'),
            colons == 1 ==> colon < i && raw@[colon as int] == ':' && (forall|j: int|
                0 <= j < i && j != colon ==> raw@[j] != ':'),
            colons >= 2 ==> (exists|a: int, b: int|
                #![trigger raw@[a], raw@[b]]
                0 <= a < b < i && raw@[a] == ':' && raw@[b] == ':'),
        decreases n - i,
    {
        if raw.get_char(i) == ':' {
            if colons == 0 {
                colon = i;
            }
            colons = colons + 1;
            proof {
                if colons == 2 {
                    assert(raw@[colon as int] == ':' && raw@[i as int] == ':');
                } else if colons > 2 {
                    let (a, b) = choose|a: int, b: int|
                        #![trigger raw@[a], raw@[b]]
                        0 <= a < b < i && raw@[a] == ':' && raw@[b] == ':';
                    assert(0 <= a < b < i + 1 && raw@[a] == ':' && raw@[b] == ':');
                }
            }
        }
        i = i + 1;
    }
    if colons != 1 {
        proof {
            assert forall|w: int, h: int| !ratio_parses(raw@, w, h) by {
                if ratio_parses(raw@, w, h) {
                    let k = choose|k: int|
                        {
                            &&& 0 <= k < raw@.len()
                            &&& #[trigger] raw@[k] == ':'
                            &&& (forall|j: int|
                                0 <= j < raw@.len() && j != k ==> raw@[j] != ':')
                            &&& parses_to(trim_spec(raw@.subrange(0, k))) == Some(w)
                            &&& parses_to(
                                trim_spec(raw@.subrange(k + 1, raw@.len() as int)),
                            ) == Some(h)
                            &&& 0 < w <= u32::MAX
                            &&& 0 < h <= u32::MAX
                        };
                    if colons == 0 {
                        assert(raw@[k] != ':');
                    } else {
                        let (a, b) = choose|a: int, b: int|
                            #![trigger raw@[a], raw@[b]]
                            0 <= a < b < n && raw@[a] == ':' && raw@[b] == ':';
                        assert(a != k || b != k);
                        if a != k {
                            assert(raw@[a] != ':');
                        } else {
                            assert(raw@[b] != ':');
                        }
                    }
                }
            }
        }
        return None;
    }
    let left = raw.substring_char(0, colon);
    let right = raw.substring_char(colon + 1, n);
    let lt = trim(left);
    let rt = trim(right);
    let w = parse_usize(lt);
    let h = parse_usize(rt);
    proof {
        assert(left@ == raw@.subrange(0, colon as int));
        assert(right@ == raw@.subrange(colon as int + 1, n as int));
    }
    match (w, h) {
        (Some(wv), Some(hv)) => {
            if wv == 0 || hv == 0 || wv > 0xFFFF_FFFFusize || hv > 0xFFFF_FFFFusize {
                proof {
                    lemma_no_other_ratio(raw@, colon as int, wv as int, hv as int);
                }
                return None;
            }
            proof {
                assert(ratio_parses(raw@, wv as int, hv as int));
            }
            Some((wv as u32, hv as u32))
        },
        _ => {
            proof {
                assert forall|w2: int, h2: int| !ratio_parses(raw@, w2, h2) by {
                    if ratio_parses(raw@, w2, h2) {
                        let k = choose|k: int|
                            {
                                &&& 0 <= k < raw@.len()
                                &&& #[trigger] raw@[k] == ':'
                                &&& (forall|j: int|
                                    0 <= j < raw@.len() && j != k ==> raw@[j] != ':')
                                &&& parses_to(trim_spec(raw@.subrange(0, k))) == Some(w2)
                                &&& parses_to(
                                    trim_spec(raw@.subrange(k + 1, raw@.len() as int)),
                                ) == Some(h2)
                                &&& 0 < w2 <= u32::MAX
                                &&& 0 < h2 <= u32::MAX
                            };
                        assert(k == colon as int);
                    }
                }
            }
            None
        },
    }
}

/// A ratio string with one colon parses one way only.
proof fn lemma_no_other_ratio(s: Seq<char>, colon: int, w: int, h: int)
    requires
        0 <= colon < s.len(),
        s[colon] == ':',
        forall|j: int| 0 <= j < s.len() && j != colon ==> s[j] != ':',
        parses_to(trim_spec(s.subrange(0, colon))) == Some(w),
        parses_to(trim_spec(s.subrange(colon + 1, s.len() as int))) == Some(h),
        !(0 < w <= u32::MAX) || !(0 < h <= u32::MAX),
    ensures
        forall|w2: int, h2: int| !ratio_parses(s, w2, h2),
{
    assert forall|w2: int, h2: int| !ratio_parses(s, w2, h2) by {
        if ratio_parses(s, w2, h2) {
            let k = choose|k: int|
                {
                    &&& 0 <= k < s.len()
                    &&& #[trigger] s[k] == ':'
                    &&& (forall|j: int| 0 <= j < s.len() && j != k ==> s[j] != ':')
                    &&& parses_to(trim_spec(s.subrange(0, k))) == Some(w2)
                    &&& parses_to(trim_spec(s.subrange(k + 1, s.len() as int))) == Some(h2)
                    &&& 0 < w2 <= u32::MAX
                    &&& 0 < h2 <= u32::MAX
                };
            assert(k == colon);
        }
    }
}

/// The centered crop of a source image to a target aspect ratio: the
/// full height with a narrowed width when the source is too wide, else
/// the full width with a shortened height.
pub fn center_crop_rect(src_width: u32, src_height: u32, ratio_width: u32, ratio_height: u32)
    -> (r: (u32, u32, u32, u32))
    requires
        ratio_width > 0,
        ratio_height > 0,
    ensures
        (src_width * ratio_height > src_height * ratio_width) ==> {
            &&& r.2 as int == (if (src_height * ratio_width) as int / (ratio_height as int) >= 1 {
                (src_height * ratio_width) as int / (ratio_height as int)
            } else {
                1int
            })
            &&& r.3 == src_height
            &&& r.0 as int == (if src_width >= r.2 {
                ((src_width - r.2) as int) / 2
            } else {
                0int
            })
            &&& r.1 == 0
        },
        !(src_width * ratio_height > src_height * ratio_width) ==> {
            &&& r.3 as int == (if (src_width * ratio_height) as int / (ratio_width as int) >= 1 {
                (src_width * ratio_height) as int / (ratio_width as int)
            } else {
                1int
            })
            &&& r.2 == src_width
            &&& r.1 as int == (if src_height >= r.3 {
                ((src_height - r.3) as int) / 2
            } else {
                0int
            })
            &&& r.0 == 0
        },
{
    proof {
        assert((src_width as int) * (ratio_height as int) <= 0xFFFF_FFFF * 0xFFFF_FFFF)
            by (nonlinear_arith)
            requires
                src_width <= 0xFFFF_FFFFu32,
                ratio_height <= 0xFFFF_FFFFu32,
        ;
        assert((src_height as int) * (ratio_width as int) <= 0xFFFF_FFFF * 0xFFFF_FFFF)
            by (nonlinear_arith)
            requires
                src_height <= 0xFFFF_FFFFu32,
                ratio_width <= 0xFFFF_FFFFu32,
        ;
    }
    let src_width_u64 = src_width as u64;
    let src_height_u64 = src_height as u64;
    let ratio_width_u64 = ratio_width as u64;
    let ratio_height_u64 = ratio_height as u64;
    if src_width_u64 * ratio_height_u64 > src_height_u64 * ratio_width_u64 {
        let exact = (src_height_u64 * ratio_width_u64) / ratio_height_u64;
        proof {
            let x = (src_height as int) * (ratio_width as int);
            let d = ratio_height as int;
            vstd::arithmetic::div_mod::lemma_fundamental_div_mod(x, d);
            vstd::arithmetic::div_mod::lemma_mod_pos_bound(x, d);
            assert(x / d < src_width as int || src_width == 0) by (nonlinear_arith)
                requires
                    d > 0,
                    x == d * (x / d) + x % d,
                    0 <= x % d < d,
                    x < (src_width as int) * d,
            ;
        }
        let crop_width_u64: u64 = if exact >= 1 {
            exact
        } else {
            1
        };
        let crop_width: u32 = crop_width_u64 as u32;
        let offset_x: u32 = if src_width >= crop_width {
            (src_width - crop_width) / 2
        } else {
            0
        };
        (offset_x, 0, crop_width, src_height)
    } else {
        let exact = (src_width_u64 * ratio_height_u64) / ratio_width_u64;
        proof {
            let x = (src_width as int) * (ratio_height as int);
            let d = ratio_width as int;
            vstd::arithmetic::div_mod::lemma_fundamental_div_mod(x, d);
            vstd::arithmetic::div_mod::lemma_mod_pos_bound(x, d);
            assert(x / d <= src_height as int) by (nonlinear_arith)
                requires
                    d > 0,
                    x == d * (x / d) + x % d,
                    0 <= x % d < d,
                    x <= (src_height as int) * d,
            ;
        }
        let crop_height_u64: u64 = if exact >= 1 {
            exact
        } else {
            1
        };
        let crop_height: u32 = crop_height_u64 as u32;
        let offset_y: u32 = if src_height >= crop_height {
            (src_height - crop_height) / 2
        } else {
            0
        };
        (0, offset_y, src_width, crop_height)
    }
}

/// The extension of a file name: what follows the last dot, unless the
/// name has no dot past its first character.
pub open spec fn has_ext_nocase(s: Seq<char>, ext: Seq<char>) -> bool {
    exists|i: int|
        {
            &&& 0 < i < s.len()
            &&& #[trigger] s[i] == '.'
            &&& (forall|j: int| i < j < s.len() ==> s[j] != '.')
            &&& str_eq_nocase_spec(s.subrange(i + 1, s.len() as int), ext)
        }
}

/// Whether a file name carries one of the supported image extensions.
pub fn has_supported_extension(file_name: &str) -> (r: bool)
    ensures
        r == (has_ext_nocase(file_name@, "jpg"@) || has_ext_nocase(file_name@, "jpeg"@)
            || has_ext_nocase(file_name@, "png"@) || has_ext_nocase(file_name@, "webp"@)),
{
    let n = file_name.unicode_len();
    let mut dot: usize = 0;
    let mut found = false;
    let mut i: usize = 0;
    while i < n
        invariant
            i <= n,
            n == file_name@.len(),
            found ==> 0 <= dot < i && file_name@[dot as int] == '.' && (forall|j: int|
                dot < j < i ==> file_name@[j] != '.'),
            !found ==> (forall|j: int| 0 <= j < i ==> file_name@[j] != '.'),
        decreases n - i,
    {
        if file_name.get_char(i) == '.' {
            dot = i;
            found = true;
        }
        i = i + 1;
    }
    if !found || dot == 0 {
        proof {
            assert forall|ext: Seq<char>| !has_ext_nocase(file_name@, ext) by {
                if has_ext_nocase(file_name@, ext) {
                    let k = choose|k: int|
                        {
                            &&& 0 < k < file_name@.len()
                            &&& #[trigger] file_name@[k] == '.'
                            &&& (forall|j: int|
                                k < j < file_name@.len() ==> file_name@[j] != '.')
                            &&& str_eq_nocase_spec(
                                file_name@.subrange(k + 1, file_name@.len() as int),
                                ext,
                            )
                        };
                    if !found {
                        assert(file_name@[k] != '.');
                    } else {
                        assert(dot == 0);
                        assert(k > 0);
                        assert(file_name@[k] != '.');
                    }
                }
            }
        }
        return false;
    }
    let ext = file_name.substring_char(dot + 1, n);
    proof {
        assert(ext@ == file_name@.subrange(dot as int + 1, n as int));
        lemma_unique_ext(file_name@, dot as int);
    }
    str_eq_nocase(ext, "jpg") || str_eq_nocase(ext, "jpeg") || str_eq_nocase(ext, "png")
        || str_eq_nocase(ext, "webp")
}

/// A name's extension is read at its last dot only.
proof fn lemma_unique_ext(s: Seq<char>, dot: int)
    requires
        0 < dot < s.len(),
        s[dot] == '.',
        forall|j: int| dot < j < s.len() ==> s[j] != '.',
    ensures
        forall|ext: Seq<char>|
            #[trigger] has_ext_nocase(s, ext) == str_eq_nocase_spec(
                s.subrange(dot + 1, s.len() as int),
                ext,
            ),
{
    assert forall|ext: Seq<char>| #[trigger] has_ext_nocase(s, ext) == str_eq_nocase_spec(
        s.subrange(dot + 1, s.len() as int),
        ext,
    ) by {
        if has_ext_nocase(s, ext) {
            let k = choose|k: int|
                {
                    &&& 0 < k < s.len()
                    &&& #[trigger] s[k] == '.'
                    &&& (forall|j: int| k < j < s.len() ==> s[j] != '.')
                    &&& str_eq_nocase_spec(s.subrange(k + 1, s.len() as int), ext)
                };
            assert(k == dot) by {
                if k < dot {
                    assert(s[dot] != '.');
                } else if k > dot {
                    assert(s[k] != '.');
                }
            }
        }
        if str_eq_nocase_spec(s.subrange(dot + 1, s.len() as int), ext) {
            assert(has_ext_nocase(s, ext));
        }
    }
}

/// Whether sniffed file contents name a supported image format.
pub fn is_supported_mime(mime: &str) -> (r: bool)
    ensures
        r == (mime@ == "image/jpeg"@ || mime@ == "image/png"@ || mime@ == "image/webp"@),
{
    str_eq(mime, "image/jpeg") || str_eq(mime, "image/png") || str_eq(mime, "image/webp")
}

} // verus!
