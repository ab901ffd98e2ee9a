//! Directory listings and wallpaper discovery.
//!
//! Reading directories happens outside the library; the entries arrive
//! as plain values. The logic here picks the display icon from a file
//! name's extension, expands a leading-tilde shorthand, orders listings
//! with directories first and names compared case-insensitively, and
//! collects the wallpaper files from a scanned picture directory.

use vstd::prelude::*;
use crate::text::{
    byte_slice, bytes_eq, bytes_of, join_with, join_with_exec, lemma_join_with_valid,
    lemma_split_on_valid, lex_le, lex_le_exec, lower_seq, lower_vec, split_on, split_on_exec,
    string_from_utf8,
};
use crate::sort::{SortOrd, stable_sort, sort_by_key};
use vstd::string::{StringExecFns, StringSliceAdditionalSpecFns};
use vstd::utf8::encode_utf8_valid_utf8;

verus! {

broadcast use vstd::string::group_string_axioms;

/// One entry of a directory listing.
pub struct FileEntry {
    /// The entry's file name.
    pub name: String,
    /// Its full path.
    pub path: String,
    /// Whether it is a directory.
    pub is_dir: bool,
    /// Its size in bytes.
    pub size: u64,
    /// Its modification time, already formatted for display.
    pub modified: Option<String>,
    /// The display icon, as [`file_icon_spec`] picks it.
    pub icon: String,
}

// ------------------------------------------------------------------
// Icons from extensions
// ------------------------------------------------------------------

/// Position after the last dot of `s[..from]`, or `0` when it has none.
pub open spec fn ext_start(s: Seq<u8>, from: int) -> int
    decreases from,
    when 0 <= from <= s.len()
{
    if from <= 0 {
        0
    } else if s[from - 1] == 46 {
        from
    } else {
        ext_start(s, from - 1)
    }
}

pub proof fn lemma_ext_start(s: Seq<u8>, from: int)
    requires
        0 <= from <= s.len(),
    ensures
        0 <= ext_start(s, from) <= from,
        ext_start(s, from) > 0 ==> s[ext_start(s, from) - 1] == 46,
        forall|j: int| ext_start(s, from) <= j < from ==> s[j] != 46,
    decreases from,
{
    if from > 0 && s[from - 1] != 46 {
        lemma_ext_start(s, from - 1);
    }
}

/// The extension of a file name: what follows the last dot, or the
/// whole name when it has none.
pub open spec fn ext_of(s: Seq<u8>) -> Seq<u8> {
    s.subrange(ext_start(s, s.len() as int), s.len() as int)
}

/// `x` is one of the options.
pub open spec fn member(x: Seq<u8>, opts: Seq<Seq<u8>>) -> bool {
    exists|i: int| 0 <= i < opts.len() && opts[i] == x
}

/// Whether `x` is one of the options.
fn is_member(x: &[u8], opts: &Vec<String>) -> (r: bool)
    ensures
        r == member(x@, opts@.map_values(|s: String| bytes_of(s@))),
{
    let ghost so = opts@.map_values(|s: String| bytes_of(s@));
    let mut i: usize = 0;
    while i < opts.len()
        invariant
            0 <= i <= opts@.len(),
            so == opts@.map_values(|s: String| bytes_of(s@)),
            forall|j: int| 0 <= j < i ==> so[j] != x@,
        decreases opts@.len() - i,
    {
        let o = &opts[i];
        if bytes_eq(o.as_str().as_bytes(), x) {
            proof {
                assert(so[i as int] == x@);
            }
            return true;
        }
        i = i + 1;
    }
    proof {
        if member(x@, so) {
            let j = choose|j: int| 0 <= j < so.len() && so[j] == x@;
        }
    }
    false
}

pub open spec fn image_exts() -> Seq<Seq<u8>> {
    seq![
        bytes_of("png"@),
        bytes_of("jpg"@),
        bytes_of("jpeg"@),
        bytes_of("gif"@),
        bytes_of("bmp"@),
        bytes_of("svg"@),
        bytes_of("webp"@),
    ]
}

pub open spec fn music_exts() -> Seq<Seq<u8>> {
    seq![
        bytes_of("mp3"@),
        bytes_of("wav"@),
        bytes_of("flac"@),
        bytes_of("ogg"@),
        bytes_of("m4a"@),
        bytes_of("aac"@),
    ]
}

pub open spec fn video_exts() -> Seq<Seq<u8>> {
    seq![
        bytes_of("mp4"@),
        bytes_of("mkv"@),
        bytes_of("avi"@),
        bytes_of("mov"@),
        bytes_of("webm"@),
    ]
}

pub open spec fn text_exts() -> Seq<Seq<u8>> {
    seq![
        bytes_of("pdf"@),
        bytes_of("doc"@),
        bytes_of("docx"@),
        bytes_of("txt"@),
        bytes_of("md"@),
        bytes_of("rtf"@),
    ]
}

pub open spec fn code_exts_a() -> Seq<Seq<u8>> {
    seq![
        bytes_of("rs"@),
        bytes_of("py"@),
        bytes_of("js"@),
        bytes_of("ts"@),
        bytes_of("tsx"@),
        bytes_of("jsx"@),
        bytes_of("c"@),
        bytes_of("cpp"@),
        bytes_of("h"@),
    ]
}

pub open spec fn code_exts_b() -> Seq<Seq<u8>> {
    seq![
        bytes_of("java"@),
        bytes_of("go"@),
        bytes_of("html"@),
        bytes_of("css"@),
        bytes_of("scss"@),
        bytes_of("json"@),
        bytes_of("xml"@),
        bytes_of("yaml"@),
        bytes_of("toml"@),
    ]
}

pub open spec fn code_exts() -> Seq<Seq<u8>> {
    code_exts_a() + code_exts_b()
}

/// Membership in a concatenation is membership in either part.
pub proof fn lemma_member_concat(x: Seq<u8>, a: Seq<Seq<u8>>, b: Seq<Seq<u8>>)
    ensures
        member(x, a + b) == (member(x, a) || member(x, b)),
{
    if member(x, a) {
        let i = choose|i: int| 0 <= i < a.len() && a[i] == x;
        assert((a + b)[i] == x);
    }
    if member(x, b) {
        let i = choose|i: int| 0 <= i < b.len() && b[i] == x;
        assert((a + b)[a.len() + i] == x);
    }
    if member(x, a + b) {
        let i = choose|i: int| 0 <= i < (a + b).len() && (a + b)[i] == x;
        if i < a.len() {
            assert(a[i] == x);
        } else {
            assert(b[i - a.len()] == x);
        }
    }
}

pub open spec fn archive_exts() -> Seq<Seq<u8>> {
    seq![
        bytes_of("zip"@),
        bytes_of("tar"@),
        bytes_of("gz"@),
        bytes_of("rar"@),
        bytes_of("7z"@),
        bytes_of("xz"@),
    ]
}

pub open spec fn terminal_exts() -> Seq<Seq<u8>> {
    seq![bytes_of("sh"@), bytes_of("bash"@), bytes_of("zsh"@), bytes_of("fish"@)]
}

pub open spec fn package_exts() -> Seq<Seq<u8>> {
    seq![
        bytes_of("deb"@),
        bytes_of("rpm"@),
        bytes_of("snap"@),
        bytes_of("flatpak"@),
        bytes_of("appimage"@),
    ]
}

/// The display icon for a listed entry: a directory gets the folder
/// icon, and a file the icon of its extension's group, compared in
/// lower case; an unknown extension gets the plain file icon.
pub open spec fn file_icon_spec(name: Seq<u8>, is_dir: bool) -> Seq<u8> {
    if is_dir {
        bytes_of("folder"@)
    } else {
        let ext = lower_seq(ext_of(name));
        if member(ext, image_exts()) {
            bytes_of("image"@)
        } else if member(ext, music_exts()) {
            bytes_of("music"@)
        } else if member(ext, video_exts()) {
            bytes_of("video"@)
        } else if member(ext, text_exts()) {
            bytes_of("file-text"@)
        } else if member(ext, code_exts()) {
            bytes_of("code"@)
        } else if member(ext, archive_exts()) {
            bytes_of("archive"@)
        } else if member(ext, terminal_exts()) {
            bytes_of("terminal"@)
        } else if member(ext, package_exts()) {
            bytes_of("package"@)
        } else {
            bytes_of("file"@)
        }
    }
}

/// The options of each group, as runtime values.
fn image_list() -> (v: Vec<String>)
    ensures
        v@.map_values(|s: String| bytes_of(s@)) == image_exts(),
{
    let v: Vec<String> = vec![
        String::from_str("png"),
        String::from_str("jpg"),
        String::from_str("jpeg"),
        String::from_str("gif"),
        String::from_str("bmp"),
        String::from_str("svg"),
        String::from_str("webp"),
    ];
    proof {
        assert(v@.map_values(|s: String| bytes_of(s@)) =~= image_exts());
    }
    v
}

fn music_list() -> (v: Vec<String>)
    ensures
        v@.map_values(|s: String| bytes_of(s@)) == music_exts(),
{
    let v: Vec<String> = vec![
        String::from_str("mp3"),
        String::from_str("wav"),
        String::from_str("flac"),
        String::from_str("ogg"),
        String::from_str("m4a"),
        String::from_str("aac"),
    ];
    proof {
        assert(v@.map_values(|s: String| bytes_of(s@)) =~= music_exts());
    }
    v
}

fn video_list() -> (v: Vec<String>)
    ensures
        v@.map_values(|s: String| bytes_of(s@)) == video_exts(),
{
    let v: Vec<String> = vec![
        String::from_str("mp4"),
        String::from_str("mkv"),
        String::from_str("avi"),
        String::from_str("mov"),
        String::from_str("webm"),
    ];
    proof {
        assert(v@.map_values(|s: String| bytes_of(s@)) =~= video_exts());
    }
    v
}

fn text_list() -> (v: Vec<String>)
    ensures
        v@.map_values(|s: String| bytes_of(s@)) == text_exts(),
{
    let v: Vec<String> = vec![
        String::from_str("pdf"),
        String::from_str("doc"),
        String::from_str("docx"),
        String::from_str("txt"),
        String::from_str("md"),
        String::from_str("rtf"),
    ];
    proof {
        assert(v@.map_values(|s: String| bytes_of(s@)) =~= text_exts());
    }
    v
}

fn code_list_a() -> (v: Vec<String>)
    ensures
        v@.map_values(|s: String| bytes_of(s@)) == code_exts_a(),
{
    let v: Vec<String> = vec![
        String::from_str("rs"),
        String::from_str("py"),
        String::from_str("js"),
        String::from_str("ts"),
        String::from_str("tsx"),
        String::from_str("jsx"),
        String::from_str("c"),
        String::from_str("cpp"),
        String::from_str("h"),
    ];
    proof {
        assert(v@.map_values(|s: String| bytes_of(s@)) =~= code_exts_a());
    }
    v
}

fn code_list_b() -> (v: Vec<String>)
    ensures
        v@.map_values(|s: String| bytes_of(s@)) == code_exts_b(),
{
    let v: Vec<String> = vec![
        String::from_str("java"),
        String::from_str("go"),
        String::from_str("html"),
        String::from_str("css"),
        String::from_str("scss"),
        String::from_str("json"),
        String::from_str("xml"),
        String::from_str("yaml"),
        String::from_str("toml"),
    ];
    proof {
        assert(v@.map_values(|s: String| bytes_of(s@)) =~= code_exts_b());
    }
    v
}

fn archive_list() -> (v: Vec<String>)
    ensures
        v@.map_values(|s: String| bytes_of(s@)) == archive_exts(),
{
    let v: Vec<String> = vec![
        String::from_str("zip"),
        String::from_str("tar"),
        String::from_str("gz"),
        String::from_str("rar"),
        String::from_str("7z"),
        String::from_str("xz"),
    ];
    proof {
        assert(v@.map_values(|s: String| bytes_of(s@)) =~= archive_exts());
    }
    v
}

fn terminal_list() -> (v: Vec<String>)
    ensures
        v@.map_values(|s: String| bytes_of(s@)) == terminal_exts(),
{
    let v: Vec<String> = vec![
        String::from_str("sh"),
        String::from_str("bash"),
        String::from_str("zsh"),
        String::from_str("fish"),
    ];
    proof {
        assert(v@.map_values(|s: String| bytes_of(s@)) =~= terminal_exts());
    }
    v
}

fn package_list() -> (v: Vec<String>)
    ensures
        v@.map_values(|s: String| bytes_of(s@)) == package_exts(),
{
    let v: Vec<String> = vec![
        String::from_str("deb"),
        String::from_str("rpm"),
        String::from_str("snap"),
        String::from_str("flatpak"),
        String::from_str("appimage"),
    ];
    proof {
        assert(v@.map_values(|s: String| bytes_of(s@)) =~= package_exts());
    }
    v
}

/// Lower-case the extension of `name`: what follows its last dot, with
/// a flag saying whether a dot was there at all.
#[verifier::loop_isolation(false)]
fn split_ext(name: &[u8]) -> (r: (bool, Vec<u8>))
    ensures
        r.1@ == lower_seq(ext_of(name@)),
        r.0 == (ext_start(name@, name@.len() as int) > 0),
{
    let n = name.len();
    let mut j: usize = n;
    while j > 0 && name[j - 1] != 46
        invariant
            0 <= j <= n,
            n == name@.len(),
            ext_start(name@, n as int) == ext_start(name@, j as int),
        decreases j,
    {
        j = j - 1;
    }
    proof {
        lemma_ext_start(name@, n as int);
        assert(j == ext_start(name@, n as int));
    }
    let mut ext: Vec<u8> = Vec::new();
    let mut k: usize = j;
    while k < n
        invariant
            j <= k <= n,
            ext@ =~= lower_seq(name@.subrange(j as int, k as int)),
        decreases n - k,
    {
        let b = name[k];
        if 65 <= b && b <= 90 {
            ext.push(b + 32);
        } else {
            ext.push(b);
        }
        k = k + 1;
        proof {
            assert(ext@ =~= lower_seq(name@.subrange(j as int, k as int)));
        }
    }
    proof {
        assert(ext@ == lower_seq(ext_of(name@)));
    }
    (j > 0, ext)
}

/// Pick the display icon for an entry, as [`file_icon_spec`] describes.
pub fn get_file_icon(name: &str, is_dir: bool) -> (r: String)
    ensures
        bytes_of(r@) == file_icon_spec(name.spec_bytes(), is_dir),
{
    if is_dir {
        return String::from_str("folder");
    }
    let (_, ext) = split_ext(name.as_bytes());
    let exts = byte_slice(&ext);
    if is_member(exts, &image_list()) {
        String::from_str("image")
    } else if is_member(exts, &music_list()) {
        String::from_str("music")
    } else if is_member(exts, &video_list()) {
        String::from_str("video")
    } else if is_member(exts, &text_list()) {
        String::from_str("file-text")
    } else if ({
        let in_code = is_member(exts, &code_list_a()) || is_member(exts, &code_list_b());
        proof {
            lemma_member_concat(ext@, code_exts_a(), code_exts_b());
        }
        in_code
    }) {
        String::from_str("code")
    } else if is_member(exts, &archive_list()) {
        String::from_str("archive")
    } else if is_member(exts, &terminal_list()) {
        String::from_str("terminal")
    } else if is_member(exts, &package_list()) {
        String::from_str("package")
    } else {
        String::from_str("file")
    }
}

// ------------------------------------------------------------------
// Listing order
// ------------------------------------------------------------------

impl SortOrd for FileEntry {
    /// Directories sort before files; within a group, names compare
    /// case-insensitively. The leading rank byte encodes the group.
    open spec fn key(&self) -> Seq<u8> {
        seq![if self.is_dir { 0u8 } else { 1u8 }] + lower_seq(bytes_of(self.name@))
    }

    fn key_le(&self, other: &Self) -> (r: bool)
        ensures
            r == lex_le(self.key(), other.key()),
    {
        let a = entry_key(self);
        let b = entry_key(other);
        lex_le_exec(byte_slice(&a), byte_slice(&b))
    }
}

/// Build an entry's sort key.
fn entry_key(e: &FileEntry) -> (r: Vec<u8>)
    ensures
        r@ == e.key(),
{
    let mut v: Vec<u8> = Vec::new();
    if e.is_dir {
        v.push(0);
    } else {
        v.push(1);
    }
    let low = lower_vec(e.name.as_str().as_bytes());
    let mut i: usize = 0;
    let ghost first = v@;
    while i < low.len()
        invariant
            0 <= i <= low@.len(),
            v@ =~= first + low@.subrange(0, i as int),
        decreases low@.len() - i,
    {
        v.push(low[i]);
        i = i + 1;
    }
    proof {
        assert(low@.subrange(0, low@.len() as int) =~= low@);
        assert(v@ =~= e.key());
    }
    v
}

/// Order a directory listing: directories first, then by name,
/// case-insensitively, keeping the read order among equal names.
pub fn get_directory_contents(entries: Vec<FileEntry>) -> (r: Vec<FileEntry>)
    ensures
        r@ == stable_sort(entries@),
{
    sort_by_key(entries)
}

// ------------------------------------------------------------------
// Tilde expansion
// ------------------------------------------------------------------

/// Every tilde replaced by the home directory.
pub open spec fn expand_tilde_spec(path: Seq<u8>, home: Seq<u8>) -> Seq<u8> {
    join_with(split_on(path, 126), home)
}

/// Expand each `~` of a request path to the home directory, as
/// [`expand_tilde_spec`] describes.
pub fn expand_tilde(path: &str, home: &str) -> (r: String)
    ensures
        bytes_of(r@) == expand_tilde_spec(path.spec_bytes(), home.spec_bytes()),
{
    let pieces = split_on_exec(path.as_bytes(), 126);
    let joined = join_with_exec(&pieces, home.as_bytes());
    proof {
        encode_utf8_valid_utf8(path@);
        encode_utf8_valid_utf8(home@);
        lemma_split_on_valid(path.spec_bytes(), 126);
        lemma_join_with_valid(
            pieces@.map_values(|f: Vec<u8>| f@),
            home.spec_bytes(),
        );
    }
    string_from_utf8(joined)
}

// ------------------------------------------------------------------
// Wallpapers
// ------------------------------------------------------------------

/// A wallpaper file: it has an extension — a dot with something after
/// it — and that extension, in lower case, is an image format the shell
/// can display.
pub open spec fn is_wallpaper_name(name: Seq<u8>) -> bool {
    ext_start(name, name.len() as int) > 0 && member(
        lower_seq(ext_of(name)),
        seq![bytes_of("png"@), bytes_of("jpg"@), bytes_of("jpeg"@), bytes_of("webp"@)],
    )
}

/// Whether a scanned file is a wallpaper, by its name.
pub fn is_wallpaper_file(name: &str) -> (r: bool)
    ensures
        r == is_wallpaper_name(name.spec_bytes()),
{
    let nb = name.as_bytes();
    let (has_dot, ext) = split_ext(nb);
    if !has_dot {
        return false;
    }
    let opts: Vec<String> = vec![
        String::from_str("png"),
        String::from_str("jpg"),
        String::from_str("jpeg"),
        String::from_str("webp"),
    ];
    proof {
        assert(opts@.map_values(|s: String| bytes_of(s@)) =~= seq![
            bytes_of("png"@),
            bytes_of("jpg"@),
            bytes_of("jpeg"@),
            bytes_of("webp"@),
        ]);
    }
    is_member(byte_slice(&ext), &opts)
}

impl SortOrd for String {
    /// Paths sort by their bytes, the plain string order.
    open spec fn key(&self) -> Seq<u8> {
        bytes_of(self@)
    }

    fn key_le(&self, other: &Self) -> (r: bool)
        ensures
            r == lex_le(self.key(), other.key()),
    {
        lex_le_exec(self.as_str().as_bytes(), other.as_str().as_bytes())
    }
}

/// The wallpaper names kept from a scan, in scan order.
pub open spec fn kept_wallpapers(paths: Seq<String>) -> Seq<String>
    decreases paths.len(),
{
    if paths.len() == 0 {
        Seq::empty()
    } else if is_wallpaper_name(bytes_of(paths[0]@)) {
        seq![paths[0]] + kept_wallpapers(paths.drop_first())
    } else {
        kept_wallpapers(paths.drop_first())
    }
}

/// Consecutive equal paths collapse to one.
pub open spec fn collapse_paths(s: Seq<String>) -> Seq<String>
    decreases s.len(),
{
    if s.len() <= 1 {
        s
    } else if s[s.len() - 2]@ == s[s.len() - 1]@ {
        collapse_paths(s.drop_last())
    } else {
        collapse_paths(s.drop_last()).push(s.last())
    }
}

/// The number of wallpapers reported at most.
pub const WALLPAPER_LIMIT: usize = 200;

/// Collect the wallpapers from the scanned file paths: keep the image
/// files, sort them, drop consecutive duplicates, and cap the list.
#[verifier::loop_isolation(false)]
pub fn get_wallpapers(paths: Vec<String>) -> (r: Vec<String>)
    ensures
        ({
            let full = collapse_paths(stable_sort(kept_wallpapers(paths@)));
            r@ == full.take(if full.len() > WALLPAPER_LIMIT {
                WALLPAPER_LIMIT as int
            } else {
                full.len() as int
            })
        }),
{
    let ghost orig = paths@;
    let mut src = paths;
    let mut kept: Vec<String> = Vec::new();
    proof {
        assert(src@ =~= orig.subrange(0, orig.len() as int));
        assert(kept@ + kept_wallpapers(orig.subrange(0, orig.len() as int)) =~= kept_wallpapers(
            orig,
        ));
    }
    let ghost mut k: int = 0;
    while src.len() > 0
        invariant
            0 <= k <= orig.len(),
            src@ == orig.subrange(k, orig.len() as int),
            kept@ + kept_wallpapers(orig.subrange(k, orig.len() as int)) =~= kept_wallpapers(
                orig,
            ),
        decreases src@.len(),
    {
        let ghost rest = orig.subrange(k, orig.len() as int);
        let x = src.remove(0);
        proof {
            assert(x == rest[0]);
            assert(rest.drop_first() =~= orig.subrange(k + 1, orig.len() as int));
            assert(src@ =~= orig.subrange(k + 1, orig.len() as int));
        }
        if is_wallpaper_file(x.as_str()) {
            kept.push(x);
        }
        proof {
            k = k + 1;
        }
    }
    proof {
        assert(orig.subrange(k, orig.len() as int) =~= Seq::<String>::empty());
        assert(kept@ =~= kept_wallpapers(orig));
    }
    let sorted = sort_by_key(kept);
    // drop consecutive duplicates
    let ghost sor = sorted@;
    let mut src2 = sorted;
    let mut out: Vec<String> = Vec::new();
    let ghost mut k2: int = 0;
    proof {
        assert(src2@ =~= sor.subrange(0, sor.len() as int));
        assert(sor.subrange(0, 0) =~= Seq::<String>::empty());
    }
    while src2.len() > 0
        invariant
            0 <= k2 <= sor.len(),
            src2@ == sor.subrange(k2, sor.len() as int),
            out@ == collapse_paths(sor.subrange(0, k2)),
            k2 > 0 ==> out@.len() > 0 && sor[k2 - 1]@ == out@.last()@,
        decreases src2@.len(),
    {
        let x = src2.remove(0);
        proof {
            assert(x == sor[k2]);
            assert(src2@ =~= sor.subrange(k2 + 1, sor.len() as int));
        }
        let mut keep = true;
        if out.len() > 0 {
            let prev = &out[out.len() - 1];
            if bytes_eq(prev.as_str().as_bytes(), x.as_str().as_bytes()) {
                proof {
                    crate::text::lemma_bytes_eq_strings_eq(prev@, x@);
                }
                keep = false;
            }
        }
        proof {
            let p2 = sor.subrange(0, k2 + 1);
            assert(p2.drop_last() =~= sor.subrange(0, k2));
            assert(p2.last() == sor[k2]);
            if k2 > 0 {
                assert(p2[p2.len() - 2] == sor[k2 - 1]);
            }
        }
        if keep {
            out.push(x);
        }
        proof {
            k2 = k2 + 1;
            assert(out@ == collapse_paths(sor.subrange(0, k2)));
        }
    }
    proof {
        assert(sor.subrange(0, sor.len() as int) =~= sor);
    }
    // cap the list
    let mut final_out = out;
    if final_out.len() > WALLPAPER_LIMIT {
        final_out.truncate(WALLPAPER_LIMIT);
    }
    proof {
        let full = collapse_paths(stable_sort(kept_wallpapers(orig)));
        assert(final_out@ =~= full.take(if full.len() > WALLPAPER_LIMIT {
            WALLPAPER_LIMIT as int
        } else {
            full.len() as int
        }));
    }
    final_out
}

} // verus!
