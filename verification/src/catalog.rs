//! The desktop application catalog.
//!
//! Desktop-entry files are key-value sections on disk. The parser reads
//! one file's text: inside the `[Desktop Entry]` section the first
//! occurrence of a key wins; entries flagged not-for-display or hidden,
//! and entries missing a display name or a launch command, yield no
//! catalog entry at all. The catalog then sorts entries by name,
//! case-insensitively, and collapses consecutive equal names, keeping
//! the first occurrence: scan order acts as precedence among duplicate
//! entries from different registries.

use vstd::prelude::*;
use crate::text::{
    byte_slice, bytes_eq, bytes_of, copy_bytes, find_byte, find_or_end, is_ascii_byte,
    lemma_ascii_is_boundary, lemma_boundary_after_ascii, lemma_find_or_end, lemma_lex_refl,
    lemma_split_lines_valid, lemma_split_on_valid, lemma_valid_subrange, lex_le, lex_le_exec,
    lines_exec, lower_seq, lower_vec, split_lines, split_on, split_on_exec, split_ws,
    split_ws_exec, string_from_utf8,
};
use crate::sort::{SortOrd, sorted_insert, stable_sort, sort_by_key, sorted_by_key};
use crate::icons::{IconResolver, FileSet, first_hit, search_order, ends_with, ends_with_exec};
use vstd::string::{StringExecFns, StringSliceAdditionalSpecFns};
use vstd::utf8::{valid_utf8, encode_utf8_valid_utf8, is_char_boundary_start_end_of_seq};

verus! {

broadcast use vstd::string::group_string_axioms;

/// One installable application, as the catalog reports it.
pub struct DesktopApp {
    /// The display name.
    pub name: String,
    /// The invocable program: the first token of the launch command.
    pub exec_command: String,
    /// The icon, as named by the entry or as resolved to a path.
    pub icon: Option<String>,
    /// The entry's categories, in order, empty segments discarded.
    pub categories: Vec<String>,
    /// The entry's comment, when present.
    pub description: Option<String>,
}

/// The byte-level image of a catalog entry.
pub struct AppFields {
    pub name: Seq<u8>,
    pub exec_command: Seq<u8>,
    pub icon: Option<Seq<u8>>,
    pub categories: Seq<Seq<u8>>,
    pub description: Option<Seq<u8>>,
}

/// The byte-level image of an entry.
pub open spec fn app_fields(a: DesktopApp) -> AppFields {
    AppFields {
        name: bytes_of(a.name@),
        exec_command: bytes_of(a.exec_command@),
        icon: match a.icon {
            Some(i) => Some(bytes_of(i@)),
            None => None,
        },
        categories: a.categories@.map_values(|c: String| bytes_of(c@)),
        description: match a.description {
            Some(d) => Some(bytes_of(d@)),
            None => None,
        },
    }
}

// ------------------------------------------------------------------
// The key-value format
// ------------------------------------------------------------------

/// A section header line: `[` ... `]`.
pub open spec fn is_header(line: Seq<u8>) -> bool {
    line.len() >= 2 && line[0] == 91 && line[line.len() - 1] == 93
}

/// The section name between the brackets.
pub open spec fn header_name(line: Seq<u8>) -> Seq<u8> {
    line.subrange(1, line.len() - 1)
}

/// The line carries `key=`: not a comment, and the bytes before the
/// first equals sign are exactly `key`.
pub open spec fn line_has_key(line: Seq<u8>, key: Seq<u8>) -> bool {
    let d = find_or_end(line, 61, 0);
    &&& !(line.len() > 0 && line[0] == 35)
    &&& d < line.len()
    &&& line.subrange(0, d) == key
}

/// The value of such a line: everything after the first equals sign.
pub open spec fn line_value(line: Seq<u8>) -> Seq<u8> {
    let d = find_or_end(line, 61, 0);
    line.subrange(d + 1, line.len() as int)
}

/// The value of the first `key=` line inside the applications section:
/// scanning from line `i`, where `active` says whether the scan stands
/// inside that section.
pub open spec fn attr_from(lines: Seq<Seq<u8>>, key: Seq<u8>, i: int, active: bool) -> Option<
    Seq<u8>,
>
    decreases lines.len() - i,
    when 0 <= i <= lines.len()
{
    if i >= lines.len() {
        None
    } else if is_header(lines[i]) {
        attr_from(lines, key, i + 1, header_name(lines[i]) == section_name())
    } else if active && line_has_key(lines[i], key) {
        Some(line_value(lines[i]))
    } else {
        attr_from(lines, key, i + 1, active)
    }
}

/// The section that describes the application.
pub open spec fn section_name() -> Seq<u8> {
    bytes_of("Desktop Entry"@)
}

/// The value of the first `key=` line inside the applications section.
pub open spec fn entry_attr(bytes: Seq<u8>, key: Seq<u8>) -> Option<Seq<u8>> {
    attr_from(split_lines(bytes), key, 0, false)
}

/// Look up `key` in the parsed lines, as [`attr_from`] describes.
#[verifier::loop_isolation(false)]
fn find_attr(lines: &Vec<Vec<u8>>, section: &[u8], key: &[u8]) -> (r: Option<Vec<u8>>)
    requires
        section@ == section_name(),
    ensures
        match r {
            Some(v) => attr_from(lines@.map_values(|l: Vec<u8>| l@), key@, 0, false) == Some(v@),
            None => attr_from(lines@.map_values(|l: Vec<u8>| l@), key@, 0, false) is None,
        },
{
    let ghost sl = lines@.map_values(|l: Vec<u8>| l@);
    let mut active = false;
    let mut i: usize = 0;
    while i < lines.len()
        invariant
            0 <= i <= lines@.len(),
            attr_from(sl, key@, 0, false) == attr_from(sl, key@, i as int, active),
        decreases lines@.len() - i,
    {
        let line = byte_slice(&lines[i]);
        proof {
            assert(sl[i as int] == line@);
        }
        let n = line.len();
        if n >= 2 && line[0] == 91 && line[n - 1] == 93 {
            // a section header opens or closes the applications section
            let mut inner: Vec<u8> = Vec::new();
            let mut k: usize = 1;
            while k < n - 1
                invariant
                    1 <= k <= n - 1,
                    n == line@.len(),
                    inner@ =~= line@.subrange(1, k as int),
                decreases n - k,
            {
                inner.push(line[k]);
                k = k + 1;
            }
            proof {
                assert(inner@ =~= header_name(line@));
            }
            active = bytes_eq(byte_slice(&inner), section);
        } else if active {
            let d = find_byte(line, 61, 0);
            let is_comment = n > 0 && line[0] == 35;
            if !is_comment && d < n {
                let mut key_part: Vec<u8> = Vec::new();
                let mut k: usize = 0;
                while k < d
                    invariant
                        0 <= k <= d <= n,
                        n == line@.len(),
                        key_part@ =~= line@.subrange(0, k as int),
                    decreases d - k,
                {
                    key_part.push(line[k]);
                    k = k + 1;
                }
                if bytes_eq(byte_slice(&key_part), key) {
                    let mut value: Vec<u8> = Vec::new();
                    let mut v: usize = d + 1;
                    while v < n
                        invariant
                            d + 1 <= v <= n,
                            n == line@.len(),
                            value@ =~= line@.subrange(d + 1, v as int),
                        decreases n - v,
                    {
                        value.push(line[v]);
                        v = v + 1;
                    }
                    proof {
                        assert(line_has_key(line@, key@));
                        assert(value@ =~= line_value(line@));
                    }
                    return Some(value);
                }
                proof {
                    assert(!line_has_key(line@, key@));
                }
            } else {
                proof {
                    assert(!line_has_key(line@, key@));
                }
            }
        }
        i = i + 1;
    }
    None
}

/// Every attribute value of valid UTF-8 input is valid UTF-8: it is a
/// whole line, cut after an ASCII equals sign.
proof fn lemma_attr_valid(lines: Seq<Seq<u8>>, key: Seq<u8>, i: int, active: bool)
    requires
        0 <= i <= lines.len(),
        forall|k: int| 0 <= k < lines.len() ==> valid_utf8(#[trigger] lines[k]),
        attr_from(lines, key, i, active) is Some,
    ensures
        valid_utf8(attr_from(lines, key, i, active)->0),
    decreases lines.len() - i,
{
    if i < lines.len() {
        if is_header(lines[i]) {
            lemma_attr_valid(lines, key, i + 1, header_name(lines[i]) == section_name());
        } else if active && line_has_key(lines[i], key) {
            let line = lines[i];
            let d = find_or_end(line, 61, 0);
            lemma_find_or_end(line, 61, 0);
            is_char_boundary_start_end_of_seq(line);
            lemma_boundary_after_ascii(line, d);
            lemma_valid_subrange(line, d + 1, line.len() as int);
        } else {
            lemma_attr_valid(lines, key, i + 1, active);
        }
    }
}

// ------------------------------------------------------------------
// One entry
// ------------------------------------------------------------------

/// The literal that flags an entry as excluded.
pub open spec fn lit_true() -> Seq<u8> {
    bytes_of("true"@)
}

/// The invocable program of a launch command: its first
/// whitespace-separated token, or the command itself when it has none.
pub open spec fn exec_token(cmd: Seq<u8>) -> Seq<u8> {
    let toks = split_ws(cmd);
    if toks.len() > 0 {
        toks[0]
    } else {
        cmd
    }
}

/// The category list: the `;`-separated segments, empty ones discarded.
pub open spec fn category_list(v: Option<Seq<u8>>) -> Seq<Seq<u8>> {
    match v {
        Some(c) => nonempty_fields(split_on(c, 59)),
        None => Seq::empty(),
    }
}

/// The nonempty fields, in order.
pub open spec fn nonempty_fields(fields: Seq<Seq<u8>>) -> Seq<Seq<u8>>
    decreases fields.len(),
{
    if fields.len() == 0 {
        Seq::empty()
    } else if fields[0].len() > 0 {
        seq![fields[0]] + nonempty_fields(fields.drop_first())
    } else {
        nonempty_fields(fields.drop_first())
    }
}

/// What one desktop-entry file means. An entry flagged `NoDisplay=true`
/// or `Hidden=true`, or missing its `Name` or `Exec` key, yields
/// nothing; otherwise the fields are read as the catalog reports them,
/// with the icon still the raw name the entry gave.
pub open spec fn desktop_entry_spec(bytes: Seq<u8>) -> Option<AppFields> {
    let no_display = entry_attr(bytes, bytes_of("NoDisplay"@));
    let hidden = entry_attr(bytes, bytes_of("Hidden"@));
    if no_display == Some(lit_true()) || hidden == Some(lit_true()) {
        None
    } else {
        match entry_attr(bytes, bytes_of("Name"@)) {
            None => None,
            Some(name) => match entry_attr(bytes, bytes_of("Exec"@)) {
                None => None,
                Some(cmd) => Some(
                    AppFields {
                        name,
                        exec_command: exec_token(cmd),
                        icon: entry_attr(bytes, bytes_of("Icon"@)),
                        categories: category_list(entry_attr(bytes, bytes_of("Categories"@))),
                        description: entry_attr(bytes, bytes_of("Comment"@)),
                    },
                ),
            },
        }
    }
}

/// Parse one desktop-entry file, as [`desktop_entry_spec`] describes.
#[verifier::loop_isolation(false)]
pub fn parse_desktop_file(contents: &str) -> (r: Option<DesktopApp>)
    ensures
        match r {
            Some(app) => desktop_entry_spec(contents.spec_bytes()) == Some(app_fields(app)),
            None => desktop_entry_spec(contents.spec_bytes()) is None,
        },
{
    let bytes = contents.as_bytes();
    proof {
        encode_utf8_valid_utf8(contents@);
        lemma_split_lines_valid(bytes@);
    }
    let lines = lines_exec(bytes);
    let ghost sl = split_lines(bytes@);
    let section = String::from_str("Desktop Entry");
    let sec = section.as_str().as_bytes();
    let key_no_display = String::from_str("NoDisplay");
    let key_hidden = String::from_str("Hidden");
    let key_name = String::from_str("Name");
    let key_exec = String::from_str("Exec");
    let key_icon = String::from_str("Icon");
    let key_categories = String::from_str("Categories");
    let key_comment = String::from_str("Comment");
    let lit = String::from_str("true");
    let lit_b = lit.as_str().as_bytes();

    let no_display = find_attr(&lines, sec, key_no_display.as_str().as_bytes());
    match no_display {
        Some(v) => {
            if bytes_eq(byte_slice(&v), lit_b) {
                return None;
            }
        },
        None => {},
    }
    let hidden = find_attr(&lines, sec, key_hidden.as_str().as_bytes());
    match hidden {
        Some(v) => {
            if bytes_eq(byte_slice(&v), lit_b) {
                return None;
            }
        },
        None => {},
    }
    let name_v = match find_attr(&lines, sec, key_name.as_str().as_bytes()) {
        Some(v) => v,
        None => {
            return None;
        },
    };
    let cmd_v = match find_attr(&lines, sec, key_exec.as_str().as_bytes()) {
        Some(v) => v,
        None => {
            return None;
        },
    };
    proof {
        lemma_attr_valid(sl, bytes_of("Name"@), 0, false);
        lemma_attr_valid(sl, bytes_of("Exec"@), 0, false);
    }
    let name = string_from_utf8(name_v);
    // the launch command's first token
    let toks = split_ws_exec(byte_slice(&cmd_v));
    let exec_b: Vec<u8> = if toks.len() > 0 {
        proof {
            assert(toks@.map_values(|t: Vec<u8>| t@)[0] == split_ws(cmd_v@)[0]);
            crate::text::lemma_split_ws_valid(cmd_v@);
        }
        copy_bytes(byte_slice(&toks[0]))
    } else {
        cmd_v
    };
    let exec_command = string_from_utf8(exec_b);
    let icon: Option<String> = match find_attr(&lines, sec, key_icon.as_str().as_bytes()) {
        Some(v) => {
            proof {
                lemma_attr_valid(sl, bytes_of("Icon"@), 0, false);
            }
            Some(string_from_utf8(v))
        },
        None => None,
    };
    let mut categories: Vec<String> = Vec::new();
    let ghost scats = category_list(entry_attr(bytes@, bytes_of("Categories"@)));
    match find_attr(&lines, sec, key_categories.as_str().as_bytes()) {
        Some(v) => {
            proof {
                lemma_attr_valid(sl, bytes_of("Categories"@), 0, false);
                lemma_split_on_valid(v@, 59);
            }
            let fields = split_on_exec(byte_slice(&v), 59);
            let ghost sf = split_on(v@, 59);
            let mut i: usize = 0;
            proof {
                assert(sf.subrange(0, sf.len() as int) =~= sf);
                assert(categories@.map_values(|c: String| bytes_of(c@)) + nonempty_fields(sf)
                    =~= nonempty_fields(sf));
            }
            while i < fields.len()
                invariant
                    0 <= i <= fields@.len(),
                    fields@.map_values(|f: Vec<u8>| f@) == sf,
                    forall|k: int| 0 <= k < sf.len() ==> valid_utf8(#[trigger] sf[k]),
                    categories@.map_values(|c: String| bytes_of(c@)) + nonempty_fields(
                        sf.subrange(i as int, sf.len() as int),
                    ) =~= nonempty_fields(sf),
                decreases fields@.len() - i,
            {
                let ghost rest = sf.subrange(i as int, sf.len() as int);
                proof {
                    assert(rest[0] == sf[i as int]);
                    assert(rest.drop_first() =~= sf.subrange(i + 1, sf.len() as int));
                }
                let f = &fields[i];
                if f.len() > 0 {
                    let c = string_from_utf8(copy_bytes(byte_slice(f)));
                    categories.push(c);
                }
                i = i + 1;
                proof {
                    assert(categories@.map_values(|c: String| bytes_of(c@)) + nonempty_fields(
                        sf.subrange(i as int, sf.len() as int),
                    ) =~= nonempty_fields(sf));
                }
            }
            proof {
                assert(sf.subrange(fields@.len() as int, sf.len() as int) =~= Seq::<
                    Seq<u8>,
                >::empty());
                assert(categories@.map_values(|c: String| bytes_of(c@)) =~= scats);
            }
        },
        None => {
            proof {
                assert(categories@.map_values(|c: String| bytes_of(c@)) =~= scats);
            }
        },
    }
    let description: Option<String> = match find_attr(&lines, sec, key_comment.as_str().as_bytes())
        {
        Some(v) => {
            proof {
                lemma_attr_valid(sl, bytes_of("Comment"@), 0, false);
            }
            Some(string_from_utf8(v))
        },
        None => None,
    };
    Some(DesktopApp { name, exec_command, icon, categories, description })
}

// ------------------------------------------------------------------
// The catalog order
// ------------------------------------------------------------------

impl SortOrd for DesktopApp {
    /// Entries sort by their name, case-insensitively.
    open spec fn key(&self) -> Seq<u8> {
        lower_seq(bytes_of(self.name@))
    }

    fn key_le(&self, other: &Self) -> (r: bool)
        ensures
            r == lex_le(self.key(), other.key()),
    {
        let a = lower_vec(self.name.as_str().as_bytes());
        let b = lower_vec(other.name.as_str().as_bytes());
        lex_le_exec(byte_slice(&a), byte_slice(&b))
    }
}

/// Two entries carry the same name.
pub open spec fn same_name(a: DesktopApp, b: DesktopApp) -> bool {
    bytes_of(a.name@) == bytes_of(b.name@)
}

/// Consecutive entries of equal name collapse to the earliest.
pub open spec fn collapse_names(s: Seq<DesktopApp>) -> Seq<DesktopApp>
    decreases s.len(),
{
    if s.len() <= 1 {
        s
    } else if same_name(s[s.len() - 2], s[s.len() - 1]) {
        collapse_names(s.drop_last())
    } else {
        collapse_names(s.drop_last()).push(s.last())
    }
}

/// Order the collected entries: sort them by name, case-insensitively
/// and stably, then collapse consecutive equal names, keeping the first
/// occurrence. Scan order therefore acts as precedence among duplicate
/// entries.
#[verifier::loop_isolation(false)]
pub fn get_installed_apps(entries: Vec<DesktopApp>) -> (r: Vec<DesktopApp>)
    ensures
        r@ == collapse_names(stable_sort(entries@)),
{
    let sorted = sort_by_key(entries);
    let ghost orig = sorted@;
    let mut src = sorted;
    let mut out: Vec<DesktopApp> = Vec::new();
    let ghost mut k: int = 0;
    proof {
        assert(orig.subrange(0, 0) =~= Seq::<DesktopApp>::empty());
        assert(src@ =~= orig.subrange(0, orig.len() as int));
    }
    while src.len() > 0
        invariant
            0 <= k <= orig.len(),
            src@ == orig.subrange(k, orig.len() as int),
            out@ == collapse_names(orig.subrange(0, k)),
            k > 0 ==> out@.len() > 0 && same_name(orig[k - 1], out@.last()),
        decreases src@.len(),
    {
        let x = src.remove(0);
        proof {
            assert(x == orig[k]);
            assert(src@ =~= orig.subrange(k + 1, orig.len() as int));
        }
        let mut keep = true;
        if out.len() > 0 {
            let prev = &out[out.len() - 1];
            if bytes_eq(prev.name.as_str().as_bytes(), x.name.as_str().as_bytes()) {
                keep = false;
            }
        }
        proof {
            let p2 = orig.subrange(0, k + 1);
            assert(p2.drop_last() =~= orig.subrange(0, k));
            assert(p2.last() == orig[k]);
            if k > 0 {
                assert(p2[p2.len() - 2] == orig[k - 1]);
            }
        }
        if keep {
            out.push(x);
        }
        proof {
            k = k + 1;
            assert(out@ == collapse_names(orig.subrange(0, k)));
        }
    }
    proof {
        assert(orig.subrange(0, orig.len() as int) =~= orig);
    }
    out
}

/// Replace an entry's icon name by its resolved path: the fields stay
/// as parsed, and the icon becomes the first hit of the search order,
/// or nothing when the entry named no icon or none was found.
pub fn resolve_entry_icon(app: DesktopApp, resolver: &IconResolver, files: &FileSet) -> (r:
    DesktopApp)
    ensures
        r.name == app.name,
        r.exec_command == app.exec_command,
        r.categories == app.categories,
        r.description == app.description,
        match app.icon {
            Some(n) => match r.icon {
                Some(p) => first_hit(search_order(*resolver, bytes_of(n@)), files@) == Some(
                    bytes_of(p@),
                ),
                None => first_hit(search_order(*resolver, bytes_of(n@)), files@) is None,
            },
            None => r.icon is None,
        },
{
    let icon = match &app.icon {
        Some(n) => resolver.resolve(n.as_str(), files),
        None => None,
    };
    DesktopApp {
        name: app.name,
        exec_command: app.exec_command,
        icon,
        categories: app.categories,
        description: app.description,
    }
}

/// A desktop-entry file is recognised by its name's extension.
pub fn is_desktop_file_name(name: &str) -> (r: bool)
    ensures
        r == ends_with(name.spec_bytes(), bytes_of(".desktop"@)),
{
    let suffix = String::from_str(".desktop");
    ends_with_exec(name.as_bytes(), suffix.as_str().as_bytes())
}

// ------------------------------------------------------------------
// Laws of the catalog order
// ------------------------------------------------------------------

/// Law: two entries of equal name, in scan order, collapse to the
/// earlier one: the higher-precedence registry wins.
pub proof fn lemma_duplicate_name_keeps_first(a: DesktopApp, b: DesktopApp)
    requires
        same_name(a, b),
    ensures
        collapse_names(stable_sort(seq![a, b])) == seq![a],
{
    let s = seq![a, b];
    assert(s.drop_last() =~= seq![a]);
    assert(s.last() == b);
    assert(seq![a].drop_last() =~= Seq::<DesktopApp>::empty());
    assert(seq![a].last() == a);
    assert(stable_sort(Seq::<DesktopApp>::empty()) =~= Seq::<DesktopApp>::empty());
    assert(stable_sort(seq![a]) =~= seq![a]);
    assert(a.key() == b.key());
    lemma_lex_refl(a.key());
    assert(sorted_insert(b, seq![a]) =~= seq![a] + sorted_insert(b, seq![a].drop_first()));
    assert(seq![a].drop_first() =~= Seq::<DesktopApp>::empty());
    assert(stable_sort(s) =~= seq![a, b]);
    let t = seq![a, b];
    assert(t.drop_last() =~= seq![a]);
    assert(collapse_names(t) == collapse_names(seq![a]));
    assert(collapse_names(seq![a]) =~= seq![a]);
}

/// Law: the catalog order is sorted: collapsing keeps adjacent entries
/// in key order, and keeps at least one entry of a nonempty input.
pub proof fn lemma_collapse_keeps_sorted(s: Seq<DesktopApp>)
    requires
        sorted_by_key(s),
    ensures
        sorted_by_key(collapse_names(s)),
        s.len() > 0 ==> collapse_names(s).len() > 0 && collapse_names(s).last().key()
            == s.last().key(),
    decreases s.len(),
{
    if s.len() > 1 {
        let t = s.drop_last();
        assert(sorted_by_key(t)) by {
            assert forall|i: int| 0 <= i < t.len() - 1 implies lex_le(
                #[trigger] t[i].key(),
                t[i + 1].key(),
            ) by {
                assert(t[i] == s[i]);
                assert(t[i + 1] == s[i + 1]);
            }
        }
        lemma_collapse_keeps_sorted(t);
        assert(t.last() == s[s.len() - 2]);
        if same_name(s[s.len() - 2], s[s.len() - 1]) {
            // equal names carry equal keys
            assert(s[s.len() - 2].key() == s[s.len() - 1].key());
        } else {
            let c = collapse_names(t);
            let r = c.push(s.last());
            assert forall|i: int| 0 <= i < r.len() - 1 implies lex_le(
                #[trigger] r[i].key(),
                r[i + 1].key(),
            ) by {
                if i < c.len() - 1 {
                    assert(r[i] == c[i]);
                    assert(r[i + 1] == c[i + 1]);
                } else {
                    assert(r[i] == c.last());
                    assert(c.last().key() == t.last().key());
                    assert(r[i + 1] == s.last());
                }
            }
        }
    }
}

/// Law: after collapsing, no two neighbouring entries share a name:
/// each name survives once per run of equal names.
pub proof fn lemma_collapse_distinct_names(s: Seq<DesktopApp>)
    ensures
        forall|i: int|
            0 <= i < collapse_names(s).len() - 1 ==> !same_name(
                #[trigger] collapse_names(s)[i],
                collapse_names(s)[i + 1],
            ),
        collapse_names(s).len() > 0 ==> s.len() > 0 && same_name(collapse_names(s).last(), s.last()),
    decreases s.len(),
{
    if s.len() > 1 {
        let t = s.drop_last();
        lemma_collapse_distinct_names(t);
        assert(t.last() == s[s.len() - 2]);
        if same_name(s[s.len() - 2], s[s.len() - 1]) {
            // the dropped entry carries the same name as the kept run
        } else {
            let c = collapse_names(t);
            let r = c.push(s.last());
            assert forall|i: int|
                0 <= i < r.len() - 1 implies !same_name(#[trigger] r[i], r[i + 1]) by {
                if i < c.len() - 1 {
                    assert(r[i] == c[i]);
                    assert(r[i + 1] == c[i + 1]);
                } else {
                    assert(r[i] == c.last());
                    assert(same_name(c.last(), t.last()));
                    assert(r[i + 1] == s.last());
                }
            }
        }
    }
}

// ------------------------------------------------------------------
// The whole pipeline
// ------------------------------------------------------------------

/// The key an entry's image sorts by.
pub open spec fn fields_key(f: AppFields) -> Seq<u8> {
    lower_seq(f.name)
}

/// [`crate::sort::sorted_insert`], at the level of entry images.
pub open spec fn sorted_insert_fields(x: AppFields, s: Seq<AppFields>) -> Seq<AppFields>
    decreases s.len(),
{
    if s.len() == 0 {
        seq![x]
    } else if lex_le(fields_key(s[0]), fields_key(x)) {
        seq![s[0]] + sorted_insert_fields(x, s.drop_first())
    } else {
        seq![x] + s
    }
}

/// [`stable_sort`], at the level of entry images.
pub open spec fn stable_sort_fields(s: Seq<AppFields>) -> Seq<AppFields>
    decreases s.len(),
{
    if s.len() == 0 {
        Seq::empty()
    } else {
        sorted_insert_fields(s.last(), stable_sort_fields(s.drop_last()))
    }
}

/// [`collapse_names`], at the level of entry images.
pub open spec fn collapse_fields(s: Seq<AppFields>) -> Seq<AppFields>
    decreases s.len(),
{
    if s.len() <= 1 {
        s
    } else if s[s.len() - 2].name == s[s.len() - 1].name {
        collapse_fields(s.drop_last())
    } else {
        collapse_fields(s.drop_last()).push(s.last())
    }
}

/// Sorting entries and sorting their images agree.
proof fn lemma_insert_commutes(x: DesktopApp, s: Seq<DesktopApp>)
    ensures
        sorted_insert(x, s).map_values(|a: DesktopApp| app_fields(a)) == sorted_insert_fields(
            app_fields(x),
            s.map_values(|a: DesktopApp| app_fields(a)),
        ),
    decreases s.len(),
{
    let m = |a: DesktopApp| app_fields(a);
    if s.len() == 0 {
        assert(sorted_insert(x, s).map_values(m) =~= seq![app_fields(x)]);
        assert(s.map_values(m) =~= Seq::<AppFields>::empty());
    } else {
        assert(s.map_values(m)[0] == app_fields(s[0]));
        assert(fields_key(app_fields(s[0])) == s[0].key());
        assert(fields_key(app_fields(x)) == x.key());
        if lex_le(s[0].key(), x.key()) {
            lemma_insert_commutes(x, s.drop_first());
            assert(s.drop_first().map_values(m) =~= s.map_values(m).drop_first());
            assert(sorted_insert(x, s).map_values(m) =~= sorted_insert_fields(
                app_fields(x),
                s.map_values(m),
            ));
        } else {
            assert(sorted_insert(x, s).map_values(m) =~= sorted_insert_fields(
                app_fields(x),
                s.map_values(m),
            ));
        }
    }
}

proof fn lemma_sort_commutes(s: Seq<DesktopApp>)
    ensures
        stable_sort(s).map_values(|a: DesktopApp| app_fields(a)) == stable_sort_fields(
            s.map_values(|a: DesktopApp| app_fields(a)),
        ),
    decreases s.len(),
{
    let m = |a: DesktopApp| app_fields(a);
    if s.len() == 0 {
        assert(stable_sort(s).map_values(m) =~= Seq::<AppFields>::empty());
        assert(s.map_values(m) =~= Seq::<AppFields>::empty());
    } else {
        lemma_sort_commutes(s.drop_last());
        assert(s.drop_last().map_values(m) =~= s.map_values(m).drop_last());
        assert(s.map_values(m).last() == app_fields(s.last()));
        lemma_insert_commutes(s.last(), stable_sort(s.drop_last()));
    }
}

proof fn lemma_collapse_commutes(s: Seq<DesktopApp>)
    ensures
        collapse_names(s).map_values(|a: DesktopApp| app_fields(a)) == collapse_fields(
            s.map_values(|a: DesktopApp| app_fields(a)),
        ),
    decreases s.len(),
{
    let m = |a: DesktopApp| app_fields(a);
    if s.len() <= 1 {
        if s.len() == 1 {
            assert(collapse_names(s).map_values(m) =~= s.map_values(m));
        } else {
            assert(collapse_names(s).map_values(m) =~= Seq::<AppFields>::empty());
            assert(s.map_values(m) =~= Seq::<AppFields>::empty());
        }
    } else {
        lemma_collapse_commutes(s.drop_last());
        assert(s.drop_last().map_values(m) =~= s.map_values(m).drop_last());
        assert(s.map_values(m)[s.len() - 2] == app_fields(s[s.len() - 2]));
        assert(s.map_values(m)[s.len() - 1] == app_fields(s.last()));
        assert(same_name(s[s.len() - 2], s[s.len() - 1]) == (app_fields(s[s.len() - 2]).name
            == app_fields(s[s.len() - 1]).name));
        if !same_name(s[s.len() - 2], s[s.len() - 1]) {
            assert(collapse_names(s).map_values(m) =~= collapse_fields(s.map_values(m)));
        }
    }
}

/// An entry's image after icon resolution: the fields stay as parsed,
/// the icon becomes the first hit of the search order.
pub open spec fn resolve_fields(f: AppFields, rsv: IconResolver, files: Seq<Seq<u8>>) -> AppFields {
    AppFields {
        name: f.name,
        exec_command: f.exec_command,
        icon: match f.icon {
            Some(n) => first_hit(search_order(rsv, n), files),
            None => None,
        },
        categories: f.categories,
        description: f.description,
    }
}

/// The entry images parsed out of the scanned files, in scan order:
/// excluded and incomplete entries are silently skipped, and each kept
/// entry's icon is resolved.
pub open spec fn parsed_entries(
    contents: Seq<Seq<char>>,
    rsv: IconResolver,
    files: Seq<Seq<u8>>,
) -> Seq<AppFields>
    decreases contents.len(),
{
    if contents.len() == 0 {
        Seq::empty()
    } else {
        let rest = parsed_entries(contents.drop_first(), rsv, files);
        match desktop_entry_spec(bytes_of(contents[0])) {
            Some(f) => seq![resolve_fields(f, rsv, files)] + rest,
            None => rest,
        }
    }
}

/// What the catalog reports for the scanned files: the parsed entries,
/// sorted by name case-insensitively, consecutive equal names collapsed
/// to the first in scan order.
pub open spec fn catalog_spec(
    contents: Seq<Seq<char>>,
    rsv: IconResolver,
    files: Seq<Seq<u8>>,
) -> Seq<AppFields> {
    collapse_fields(stable_sort_fields(parsed_entries(contents, rsv, files)))
}

/// Build the catalog from the scanned files' text, as [`catalog_spec`]
/// describes: parse each file, resolve each entry's icon against the
/// existing files, order the result.
#[verifier::loop_isolation(false)]
pub fn build_catalog(contents: Vec<String>, resolver: &IconResolver, files: &FileSet) -> (r: Vec<
    DesktopApp,
>)
    ensures
        r@.map_values(|a: DesktopApp| app_fields(a)) == catalog_spec(
            contents@.map_values(|c: String| c@),
            *resolver,
            files@,
        ),
{
    let ghost sc = contents@.map_values(|c: String| c@);
    let mut collected: Vec<DesktopApp> = Vec::new();
    let mut src = contents;
    let ghost mut k: int = 0;
    proof {
        assert(src@.map_values(|c: String| c@) =~= sc.subrange(0, sc.len() as int));
        assert(collected@.map_values(|a: DesktopApp| app_fields(a)) + parsed_entries(
            sc.subrange(0, sc.len() as int),
            *resolver,
            files@,
        ) =~= parsed_entries(sc, *resolver, files@));
    }
    while src.len() > 0
        invariant
            0 <= k <= sc.len(),
            src@.map_values(|c: String| c@) == sc.subrange(k, sc.len() as int),
            collected@.map_values(|a: DesktopApp| app_fields(a)) + parsed_entries(
                sc.subrange(k, sc.len() as int),
                *resolver,
                files@,
            ) =~= parsed_entries(sc, *resolver, files@),
        decreases src@.len(),
    {
        let ghost rest = sc.subrange(k, sc.len() as int);
        let ghost prev = src@;
        let text = src.remove(0);
        proof {
            assert(text == prev[0]);
            assert(prev.map_values(|c: String| c@)[0] == rest[0]);
            assert(rest[0] == text@);
            assert forall|i: int|
                0 <= i < src@.len() implies src@.map_values(|c: String| c@)[i] == (#[trigger] sc.subrange(
                k + 1,
                sc.len() as int,
            )[i]) by {
                assert(src@[i] == prev[i + 1]);
                assert(prev.map_values(|c: String| c@)[i + 1] == sc.subrange(
                    k,
                    sc.len() as int,
                )[i + 1]);
            }
            assert(src@.map_values(|c: String| c@) =~= sc.subrange(k + 1, sc.len() as int));
            assert(rest.drop_first() =~= sc.subrange(k + 1, sc.len() as int));
        }
        match parse_desktop_file(text.as_str()) {
            Some(app) => {
                let resolved = resolve_entry_icon(app, resolver, files);
                proof {
                    assert(app_fields(resolved) == resolve_fields(
                        desktop_entry_spec(bytes_of(text@))->0,
                        *resolver,
                        files@,
                    ));
                }
                collected.push(resolved);
            },
            None => {},
        }
        proof {
            k = k + 1;
            assert(collected@.map_values(|a: DesktopApp| app_fields(a)) + parsed_entries(
                sc.subrange(k, sc.len() as int),
                *resolver,
                files@,
            ) =~= parsed_entries(sc, *resolver, files@));
        }
    }
    proof {
        assert(sc.subrange(k, sc.len() as int) =~= Seq::<Seq<char>>::empty());
        assert(collected@.map_values(|a: DesktopApp| app_fields(a)) =~= parsed_entries(
            sc,
            *resolver,
            files@,
        ));
        lemma_sort_commutes(collected@);
        lemma_collapse_commutes(stable_sort(collected@));
    }
    get_installed_apps(collected)
}

} // verus!
