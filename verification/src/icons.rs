//! Hierarchical icon lookup.
//!
//! An icon is named either by an absolute path or by a logical name that
//! must be found under well-known roots: flat pixmap directories first,
//! then icon-theme trees ordered by theme, size bucket and context. The
//! search order is fixed and significant; the first existing file wins.
//! Which paths exist is a fact about the filesystem, so the resolver is
//! handed a [`FileSet`] of the existing regular files and is a pure
//! function of it.

use vstd::prelude::*;
use crate::text::{
    byte_slice, bytes_eq, bytes_of, lemma_ascii_literal_bytes, lemma_bytes_eq_strings_eq,
    lemma_encode_concat,
};
use vstd::string::{StringExecFns, StringSliceAdditionalSpecFns};

verus! {

broadcast use vstd::string::group_string_axioms;

/// A set of filesystem paths known to exist as regular files.
pub struct FileSet {
    paths: Vec<String>,
}

impl View for FileSet {
    type V = Seq<Seq<u8>>;

    closed spec fn view(&self) -> Seq<Seq<u8>> {
        self.paths@.map_values(|p: String| bytes_of(p@))
    }
}

impl FileSet {
    /// The set of the given paths.
    pub fn new(paths: Vec<String>) -> (r: FileSet)
        ensures
            r@ == paths@.map_values(|p: String| bytes_of(p@)),
    {
        FileSet { paths }
    }

    /// Whether `p` is one of the existing files.
    pub fn contains(&self, p: &str) -> (r: bool)
        ensures
            r == self@.contains(p.spec_bytes()),
    {
        let mut i: usize = 0;
        while i < self.paths.len()
            invariant
                0 <= i <= self.paths@.len(),
                self@ == self.paths@.map_values(|q: String| bytes_of(q@)),
                forall|j: int| 0 <= j < i ==> self@[j] != p.spec_bytes(),
            decreases self.paths@.len() - i,
        {
            let q = &self.paths[i];
            if bytes_eq(q.as_str().as_bytes(), p.as_bytes()) {
                proof {
                    assert(self@[i as int] == p.spec_bytes());
                }
                return true;
            }
            i = i + 1;
        }
        proof {
            assert(!self@.contains(p.spec_bytes())) by {
                if self@.contains(p.spec_bytes()) {
                    let j = choose|j: int|
                        0 <= j < self@.len() && self@[j] == p.spec_bytes();
                }
            }
        }
        false
    }
}

/// The path separator.
pub open spec fn sep() -> Seq<u8> {
    seq![47u8]
}

/// The extension dot.
pub open spec fn dot() -> Seq<u8> {
    seq![46u8]
}

/// Each `y` appended to `x` behind a separator.
pub open spec fn join_under(x: Seq<u8>, ys: Seq<Seq<u8>>) -> Seq<Seq<u8>>
    decreases ys.len(),
{
    if ys.len() == 0 {
        Seq::empty()
    } else {
        seq![x + sep() + ys[0]] + join_under(x, ys.drop_first())
    }
}

/// The cross product of directories and relative paths, directory-major.
pub open spec fn join_cross(xs: Seq<Seq<u8>>, ys: Seq<Seq<u8>>) -> Seq<Seq<u8>>
    decreases xs.len(),
{
    if xs.len() == 0 {
        Seq::empty()
    } else {
        join_under(xs[0], ys) + join_cross(xs.drop_first(), ys)
    }
}

/// Join each directory with each relative path, as [`join_cross`]
/// describes.
#[verifier::loop_isolation(false)]
pub fn join_cross_exec(xs: &Vec<String>, ys: &Vec<String>) -> (r: Vec<String>)
    ensures
        r@.map_values(|s: String| bytes_of(s@)) == join_cross(
            xs@.map_values(|s: String| bytes_of(s@)),
            ys@.map_values(|s: String| bytes_of(s@)),
        ),
{
    proof {
        reveal_strlit("/");
        lemma_ascii_literal_bytes("/"@, sep());
    }
    let ghost sxs = xs@.map_values(|s: String| bytes_of(s@));
    let ghost sys = ys@.map_values(|s: String| bytes_of(s@));
    let mut out: Vec<String> = Vec::new();
    let mut i: usize = 0;
    proof {
        assert(sxs.subrange(0, sxs.len() as int) =~= sxs);
        assert(out@.map_values(|s: String| bytes_of(s@)) + join_cross(sxs, sys) =~= join_cross(
            sxs,
            sys,
        ));
    }
    while i < xs.len()
        invariant
            0 <= i <= xs@.len(),
            out@.map_values(|s: String| bytes_of(s@)) + join_cross(
                sxs.subrange(i as int, sxs.len() as int),
                sys,
            ) =~= join_cross(sxs, sys),
        decreases xs@.len() - i,
    {
        let ghost xrest = sxs.subrange(i as int, sxs.len() as int);
        let x = &xs[i];
        let mut j: usize = 0;
        proof {
            assert(xrest[0] == sxs[i as int]);
            assert(sys.subrange(0, sys.len() as int) =~= sys);
            assert(xrest.drop_first() =~= sxs.subrange(i + 1, sxs.len() as int));
        }
        while j < ys.len()
            invariant
                0 <= j <= ys@.len(),
                0 <= i < xs@.len(),
                out@.map_values(|s: String| bytes_of(s@)) + join_under(
                    sxs[i as int],
                    sys.subrange(j as int, sys.len() as int),
                ) + join_cross(sxs.subrange(i + 1, sxs.len() as int), sys) =~= join_cross(
                    sxs,
                    sys,
                ),
            decreases ys@.len() - j,
        {
            let ghost yrest = sys.subrange(j as int, sys.len() as int);
            let y = &ys[j];
            let mut cand = String::new();
            cand.append(x.as_str());
            cand.append("/");
            cand.append(y.as_str());
            proof {
                assert(cand@ =~= x@ + "/"@ + y@);
                lemma_encode_concat(x@, "/"@);
                lemma_encode_concat(x@ + "/"@, y@);
                assert(bytes_of(cand@) == sxs[i as int] + sep() + sys[j as int]);
                assert(yrest[0] == sys[j as int]);
                assert(yrest.drop_first() =~= sys.subrange(j + 1, sys.len() as int));
            }
            out.push(cand);
            proof {
                assert(out@.map_values(|s: String| bytes_of(s@)) =~= out@.subrange(
                    0,
                    out@.len() - 1,
                ).map_values(|s: String| bytes_of(s@)).push(bytes_of(out@.last()@)));
            }
            j = j + 1;
        }
        proof {
            assert(sys.subrange(ys@.len() as int, sys.len() as int) =~= Seq::<Seq<u8>>::empty());
            assert(join_under(sxs[i as int], Seq::<Seq<u8>>::empty()) =~= Seq::<Seq<u8>>::empty());
        }
        i = i + 1;
    }
    proof {
        assert(sxs.subrange(xs@.len() as int, sxs.len() as int) =~= Seq::<Seq<u8>>::empty());
        assert(join_cross(Seq::<Seq<u8>>::empty(), sys) =~= Seq::<Seq<u8>>::empty());
        assert(out@.map_values(|s: String| bytes_of(s@)) =~= join_cross(sxs, sys));
    }
    out
}

/// `s` ends with `p`.
pub open spec fn ends_with(s: Seq<u8>, p: Seq<u8>) -> bool {
    p.len() <= s.len() && s.subrange(s.len() - p.len(), s.len() as int) == p
}

/// Whether `s` ends with `p`.
pub fn ends_with_exec(s: &[u8], p: &[u8]) -> (r: bool)
    ensures
        r == ends_with(s@, p@),
{
    if p.len() > s.len() {
        return false;
    }
    let r = crate::text::check_match(s, p, s.len() - p.len());
    proof {
        assert(s@.subrange(s@.len() - p@.len(), s@.len() - p@.len() + p@.len()) =~= s@.subrange(
            s@.len() - p@.len(),
            s@.len() as int,
        ));
    }
    r
}

/// The name already carries one of the known image extensions.
pub open spec fn has_known_ext(name: Seq<u8>, exts: Seq<Seq<u8>>) -> bool {
    exists|i: int| 0 <= i < exts.len() && ends_with(name, dot() + exts[i])
}

/// The filenames to look for: the name itself when it already carries a
/// known extension, else the name with each extension appended in order.
pub open spec fn filename_candidates(name: Seq<u8>, exts: Seq<Seq<u8>>) -> Seq<Seq<u8>> {
    if has_known_ext(name, exts) {
        seq![name]
    } else {
        exts.map_values(|e: Seq<u8>| name + dot() + e)
    }
}

/// The first candidate that exists, searched in order.
pub open spec fn first_hit(order: Seq<Seq<u8>>, files: Seq<Seq<u8>>) -> Option<Seq<u8>>
    decreases order.len(),
{
    if order.len() == 0 {
        None
    } else if files.contains(order[0]) {
        Some(order[0])
    } else {
        first_hit(order.drop_first(), files)
    }
}

/// Law: a hit among the earlier candidates always beats the later ones:
/// the pixmap directories stand before the theme trees in the search
/// order, so a pixmap hit wins over any theme hit.
pub proof fn lemma_first_hit_precedence(a: Seq<Seq<u8>>, b: Seq<Seq<u8>>, files: Seq<Seq<u8>>)
    ensures
        first_hit(a, files) is Some ==> first_hit(a + b, files) == first_hit(a, files),
        first_hit(a, files) is None ==> first_hit(a + b, files) == first_hit(b, files),
    decreases a.len(),
{
    if a.len() == 0 {
        assert(a + b =~= b);
    } else {
        assert((a + b)[0] == a[0]);
        assert((a + b).drop_first() =~= a.drop_first() + b);
        lemma_first_hit_precedence(a.drop_first(), b, files);
    }
}

/// Law: resolution respects precedence: a hit among the direct and
/// pixmap candidates always beats a theme hit, and with no hit there
/// the theme trees alone decide.
pub proof fn lemma_pixmap_beats_theme(r: IconResolver, name: Seq<u8>, files: Seq<Seq<u8>>)
    ensures
        ({
            let fc = filename_candidates(name, views_of(r.extensions@));
            let direct: Seq<Seq<u8>> = if name.len() > 0 && name[0] == 47 {
                seq![name]
            } else {
                Seq::empty()
            };
            let early = direct + join_cross(views_of(r.pixmap_dirs@), fc);
            let themes = join_cross(theme_dirs(r), fc);
            &&& (first_hit(early, files) is Some ==> first_hit(search_order(r, name), files)
                == first_hit(early, files))
            &&& (first_hit(early, files) is None ==> first_hit(search_order(r, name), files)
                == first_hit(themes, files))
        }),
{
    let fc = filename_candidates(name, views_of(r.extensions@));
    let direct: Seq<Seq<u8>> = if name.len() > 0 && name[0] == 47 {
        seq![name]
    } else {
        Seq::empty()
    };
    let early = direct + join_cross(views_of(r.pixmap_dirs@), fc);
    let themes = join_cross(theme_dirs(r), fc);
    assert(search_order(r, name) =~= early + themes);
    lemma_first_hit_precedence(early, themes, files);
}

/// The search layout: where icons may live, and in what order.
pub struct IconResolver {
    /// Flat pixmap directories, searched first.
    pub pixmap_dirs: Vec<String>,
    /// Roots holding icon-theme trees.
    pub theme_roots: Vec<String>,
    /// Theme names, preferred order.
    pub themes: Vec<String>,
    /// Size buckets, largest and scalable first.
    pub sizes: Vec<String>,
    /// Semantic context subdirectories.
    pub contexts: Vec<String>,
    /// Known image extensions, preferred order.
    pub extensions: Vec<String>,
}

/// The byte-level image of a string list.
pub open spec fn views_of(v: Seq<String>) -> Seq<Seq<u8>> {
    v.map_values(|s: String| bytes_of(s@))
}

/// The theme directories: every root, theme, size and context combined,
/// in nested order.
pub open spec fn theme_dirs(r: IconResolver) -> Seq<Seq<u8>> {
    join_cross(
        join_cross(
            join_cross(views_of(r.theme_roots@), views_of(r.themes@)),
            views_of(r.sizes@),
        ),
        views_of(r.contexts@),
    )
}

/// The full search order for a logical icon name: the name itself when
/// absolute, then the pixmap directories, then the theme trees, each
/// crossed with the filename candidates.
pub open spec fn search_order(r: IconResolver, name: Seq<u8>) -> Seq<Seq<u8>> {
    let files = filename_candidates(name, views_of(r.extensions@));
    let direct: Seq<Seq<u8>> = if name.len() > 0 && name[0] == 47 {
        seq![name]
    } else {
        Seq::empty()
    };
    direct + join_cross(views_of(r.pixmap_dirs@), files) + join_cross(theme_dirs(r), files)
}

/// The fixed pixmap directories: system locations, then the sandboxed
/// package exports.
pub open spec fn default_pixmap_dirs() -> Seq<Seq<char>> {
    seq![
        "/usr/share/pixmaps"@,
        "/usr/local/share/pixmaps"@,
        "/var/lib/flatpak/exports/share/pixmaps"@,
    ]
}

/// The fixed theme roots for a known home directory: the user's trees
/// first, then the system trees, then the sandboxed package exports.
pub open spec fn default_theme_roots(home: Option<Seq<char>>) -> Seq<Seq<char>> {
    let system: Seq<Seq<char>> = seq![
        "/usr/share/icons"@,
        "/var/lib/flatpak/exports/share/icons"@,
    ];
    match home {
        Some(h) => seq![h + "/.local/share/icons"@, h + "/.icons"@] + system,
        None => system,
    }
}

/// The theme preference order.
pub open spec fn default_themes() -> Seq<Seq<char>> {
    seq!["hicolor"@, "Adwaita"@, "breeze"@]
}

/// The size buckets, scalable and larger rasters first: the shell
/// renders a fixed raster range and prefers what scales down well.
pub open spec fn default_sizes() -> Seq<Seq<char>> {
    seq![
        "scalable"@,
        "512x512"@,
        "256x256"@,
        "128x128"@,
        "96x96"@,
        "64x64"@,
        "48x48"@,
        "32x32"@,
    ]
}

/// The semantic context subdirectories.
pub open spec fn default_contexts() -> Seq<Seq<char>> {
    seq!["apps"@, "places"@, "categories"@, "mimetypes"@, "status"@, "actions"@]
}

/// The known image extensions, preferred order.
pub open spec fn default_extensions() -> Seq<Seq<char>> {
    seq!["svg"@, "png"@, "xpm"@]
}

impl IconResolver {
    /// The conventional layout: the fixed pixmap directories, theme
    /// roots under the given home directory and the system trees, and
    /// the fixed theme, size, context and extension orders.
    pub fn with_default_layout(home: Option<&str>) -> (r: IconResolver)
        ensures
            r.pixmap_dirs@.map_values(|s: String| s@) == default_pixmap_dirs(),
            r.theme_roots@.map_values(|s: String| s@) == default_theme_roots(
                match home {
                    Some(h) => Some(h@),
                    None => None,
                },
            ),
            r.themes@.map_values(|s: String| s@) == default_themes(),
            r.sizes@.map_values(|s: String| s@) == default_sizes(),
            r.contexts@.map_values(|s: String| s@) == default_contexts(),
            r.extensions@.map_values(|s: String| s@) == default_extensions(),
    {
        let pixmap_dirs: Vec<String> = vec![
            String::from_str("/usr/share/pixmaps"),
            String::from_str("/usr/local/share/pixmaps"),
            String::from_str("/var/lib/flatpak/exports/share/pixmaps"),
        ];
        let mut theme_roots: Vec<String> = Vec::new();
        match home {
            Some(h) => {
                let mut a = String::from_str(h);
                a.append("/.local/share/icons");
                theme_roots.push(a);
                let mut b = String::from_str(h);
                b.append("/.icons");
                theme_roots.push(b);
            },
            None => {},
        }
        theme_roots.push(String::from_str("/usr/share/icons"));
        theme_roots.push(String::from_str("/var/lib/flatpak/exports/share/icons"));
        let themes: Vec<String> = vec![
            String::from_str("hicolor"),
            String::from_str("Adwaita"),
            String::from_str("breeze"),
        ];
        let sizes: Vec<String> = vec![
            String::from_str("scalable"),
            String::from_str("512x512"),
            String::from_str("256x256"),
            String::from_str("128x128"),
            String::from_str("96x96"),
            String::from_str("64x64"),
            String::from_str("48x48"),
            String::from_str("32x32"),
        ];
        let contexts: Vec<String> = vec![
            String::from_str("apps"),
            String::from_str("places"),
            String::from_str("categories"),
            String::from_str("mimetypes"),
            String::from_str("status"),
            String::from_str("actions"),
        ];
        let extensions: Vec<String> = vec![
            String::from_str("svg"),
            String::from_str("png"),
            String::from_str("xpm"),
        ];
        let r = IconResolver { pixmap_dirs, theme_roots, themes, sizes, contexts, extensions };
        proof {
            assert(r.pixmap_dirs@.map_values(|s: String| s@) =~= default_pixmap_dirs());
            match home {
                Some(h) => {
                    assert(r.theme_roots@.map_values(|s: String| s@) =~= default_theme_roots(
                        Some(h@),
                    ));
                },
                None => {
                    assert(r.theme_roots@.map_values(|s: String| s@) =~= default_theme_roots(
                        None,
                    ));
                },
            }
            assert(r.themes@.map_values(|s: String| s@) =~= default_themes());
            assert(r.sizes@.map_values(|s: String| s@) =~= default_sizes());
            assert(r.contexts@.map_values(|s: String| s@) =~= default_contexts());
            assert(r.extensions@.map_values(|s: String| s@) =~= default_extensions());
        }
        r
    }

    /// Resolve a logical icon name or absolute path to the first
    /// existing file in the search order, or to nothing: icon absence
    /// is a common case, not an error.
    #[verifier::loop_isolation(false)]
    pub fn resolve(&self, name: &str, files: &FileSet) -> (r: Option<String>)
        ensures
            match r {
                Some(p) => first_hit(search_order(*self, name.spec_bytes()), files@) == Some(
                    bytes_of(p@),
                ),
                None => first_hit(search_order(*self, name.spec_bytes()), files@) is None,
            },
    {
        let candidates = self.candidates(name);
        let ghost order = search_order(*self, name.spec_bytes());
        let mut i: usize = 0;
        proof {
            assert(order.subrange(0, order.len() as int) =~= order);
        }
        while i < candidates.len()
            invariant
                0 <= i <= candidates@.len(),
                candidates@.map_values(|s: String| bytes_of(s@)) == order,
                first_hit(order, files@) == first_hit(
                    order.subrange(i as int, order.len() as int),
                    files@,
                ),
            decreases candidates@.len() - i,
        {
            let ghost rest = order.subrange(i as int, order.len() as int);
            let c = &candidates[i];
            proof {
                assert(rest[0] == order[i as int]);
                assert(rest.drop_first() =~= order.subrange(i + 1, order.len() as int));
            }
            if files.contains(c.as_str()) {
                let found = c.clone();
                proof {
                    assert(first_hit(rest, files@) == Some(order[i as int]));
                }
                return Some(found);
            }
            i = i + 1;
        }
        proof {
            assert(order.subrange(i as int, order.len() as int) =~= Seq::<Seq<u8>>::empty());
        }
        None
    }

    /// Build the full candidate list, in search order.
    #[verifier::loop_isolation(false)]
    fn candidates(&self, name: &str) -> (r: Vec<String>)
        ensures
            r@.map_values(|s: String| bytes_of(s@)) == search_order(*self, name.spec_bytes()),
    {
        proof {
            reveal_strlit(".");
            lemma_ascii_literal_bytes("."@, dot());
        }
        let nb = name.as_bytes();
        // the filename candidates
        let mut filenames: Vec<String> = Vec::new();
        let mut any_ext = false;
        let mut e: usize = 0;
        let ghost sexts = views_of(self.extensions@);
        while e < self.extensions.len()
            invariant
                0 <= e <= self.extensions@.len(),
                any_ext == exists|i: int|
                    0 <= i < e && ends_with(name.spec_bytes(), dot() + sexts[i]),
            decreases self.extensions@.len() - e,
        {
            let ext = &self.extensions[e];
            let mut suffix = String::new();
            suffix.append(".");
            suffix.append(ext.as_str());
            proof {
                lemma_encode_concat("."@, ext@);
                assert(bytes_of(suffix@) == dot() + sexts[e as int]);
            }
            if ends_with_exec(nb, suffix.as_str().as_bytes()) {
                any_ext = true;
                proof {
                    assert(ends_with(name.spec_bytes(), dot() + sexts[e as int]));
                }
            }
            e = e + 1;
        }
        proof {
            assert(any_ext == has_known_ext(name.spec_bytes(), sexts));
        }
        if any_ext {
            filenames.push(name.to_owned());
            proof {
                assert(filenames@.map_values(|s: String| bytes_of(s@)) =~= filename_candidates(
                    name.spec_bytes(),
                    sexts,
                ));
            }
        } else {
            let mut e2: usize = 0;
            while e2 < self.extensions.len()
                invariant
                    0 <= e2 <= self.extensions@.len(),
                    filenames@.len() == e2,
                    forall|k: int|
                        0 <= k < e2 ==> bytes_of(#[trigger] filenames@[k]@) == name.spec_bytes()
                            + dot() + sexts[k],
                decreases self.extensions@.len() - e2,
            {
                let ext = &self.extensions[e2];
                let mut cand = String::new();
                cand.append(name);
                cand.append(".");
                cand.append(ext.as_str());
                proof {
                    lemma_encode_concat(name@, "."@);
                    lemma_encode_concat(name@ + "."@, ext@);
                    assert(bytes_of(cand@) == name.spec_bytes() + dot() + sexts[e2 as int]);
                }
                filenames.push(cand);
                e2 = e2 + 1;
            }
            proof {
                assert(filenames@.map_values(|s: String| bytes_of(s@)) =~= filename_candidates(
                    name.spec_bytes(),
                    sexts,
                ));
            }
        }
        // theme directories: root/theme/size/context
        let rt = join_cross_exec(&self.theme_roots, &self.themes);
        let rts = join_cross_exec(&rt, &self.sizes);
        let rtsc = join_cross_exec(&rts, &self.contexts);
        // assemble the order
        let ghost sdirect: Seq<Seq<u8>> = if name.spec_bytes().len() > 0 && name.spec_bytes()[0]
            == 47 {
            seq![name.spec_bytes()]
        } else {
            Seq::empty()
        };
        let mut out: Vec<String> = Vec::new();
        if nb.len() > 0 && nb[0] == 47 {
            out.push(name.to_owned());
        }
        proof {
            assert(out@.len() == sdirect.len());
            assert(forall|k: int|
                0 <= k < sdirect.len() ==> bytes_of(#[trigger] out@[k]@) == sdirect[k]);
        }
        let pix = join_cross_exec(&self.pixmap_dirs, &filenames);
        let ghost spix = pix@.map_values(|s: String| bytes_of(s@));
        let mut p: usize = 0;
        while p < pix.len()
            invariant
                0 <= p <= pix@.len(),
                out@.len() == sdirect.len() + p,
                forall|k: int|
                    0 <= k < sdirect.len() ==> bytes_of(#[trigger] out@[k]@) == sdirect[k],
                forall|k: int|
                    0 <= k < p ==> bytes_of(#[trigger] out@[sdirect.len() + k]@) == spix[k],
            decreases pix@.len() - p,
        {
            out.push(pix[p].clone());
            p = p + 1;
        }
        let tc = join_cross_exec(&rtsc, &filenames);
        let ghost stc = tc@.map_values(|s: String| bytes_of(s@));
        let mut q: usize = 0;
        while q < tc.len()
            invariant
                0 <= q <= tc@.len(),
                out@.len() == sdirect.len() + spix.len() + q,
                forall|k: int|
                    0 <= k < sdirect.len() ==> bytes_of(#[trigger] out@[k]@) == sdirect[k],
                forall|k: int|
                    0 <= k < spix.len() ==> bytes_of(#[trigger] out@[sdirect.len() + k]@)
                        == spix[k],
                forall|k: int|
                    0 <= k < q ==> bytes_of(#[trigger] out@[sdirect.len() + spix.len() + k]@)
                        == stc[k],
            decreases tc@.len() - q,
        {
            out.push(tc[q].clone());
            q = q + 1;
        }
        proof {
            let so = search_order(*self, name.spec_bytes());
            assert(out@.map_values(|s: String| bytes_of(s@)) =~= so) by {
                assert(so == sdirect + spix + stc);
                assert forall|k: int|
                    0 <= k < out@.len() implies out@.map_values(|s: String| bytes_of(s@))[k]
                    == so[k] by {
                    if k < sdirect.len() {
                    } else if k < sdirect.len() + spix.len() {
                        assert(bytes_of(out@[sdirect.len() + (k - sdirect.len())]@)
                            == spix[k - sdirect.len()]);
                    } else {
                        assert(bytes_of(out@[sdirect.len() + spix.len() + (k - sdirect.len()
                            - spix.len())]@) == stc[k - sdirect.len() - spix.len()]);
                    }
                }
            }
        }
        out
    }
}

} // verus!
