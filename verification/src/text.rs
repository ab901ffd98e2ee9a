//! Byte-level text utilities shared by the parsers.
//!
//! Tool output and desktop-entry files arrive as UTF-8 strings; the
//! parsers scan their bytes. All delimiters of interest are ASCII, so a
//! found delimiter position is always a character boundary, which lets a
//! matched range be cut back out of the string it came from.

use vstd::prelude::*;
use vstd::string::*;
use vstd::utf8::*;

verus! {

/// The bytes of a string, as spoken of by every contract in this crate.
pub open spec fn bytes_of(s: Seq<char>) -> Seq<u8> {
    encode_utf8(s)
}

/// An ASCII byte: one that encodes a character on its own.
pub open spec fn is_ascii_byte(b: u8) -> bool {
    b < 128
}

/// A position holding an ASCII byte is a character boundary.
pub proof fn lemma_ascii_is_boundary(bytes: Seq<u8>, i: int)
    requires
        valid_utf8(bytes),
        0 <= i < bytes.len(),
        is_ascii_byte(bytes[i]),
    ensures
        is_char_boundary(bytes, i),
{
    let b: u8 = bytes[i];
    assert(!is_continuation_byte(b)) by (bit_vector)
        requires
            b < 128,
    ;
    is_char_boundary_iff_not_is_continuation_byte(bytes, i);
}

/// The position just after an ASCII byte is a character boundary.
pub proof fn lemma_boundary_after_ascii(bytes: Seq<u8>, i: int)
    requires
        valid_utf8(bytes),
        0 <= i < bytes.len(),
        is_ascii_byte(bytes[i]),
    ensures
        is_char_boundary(bytes, i + 1),
    decreases bytes.len(),
{
    if i + 1 == bytes.len() {
        is_char_boundary_start_end_of_seq(bytes);
    } else {
        lemma_ascii_is_boundary(bytes, i);
        valid_utf8_split(bytes, i);
        let tail = bytes.subrange(i, bytes.len() as int);
        let t0: u8 = tail[0];
        assert(t0 == bytes[i]);
        assert(is_leading_byte_width_1(t0)) by (bit_vector)
            requires
                t0 < 128,
        ;
        assert(!is_continuation_byte(tail[1])) by {
            is_char_boundary_iff_not_is_continuation_byte(tail, 1);
            assert(is_char_boundary(tail, 1)) by {
                assert(length_of_first_scalar(tail) == 1);
                is_char_boundary_start_end_of_seq(pop_first_scalar(tail));
            }
        }
        assert(tail[1] == bytes[i + 1]);
        is_char_boundary_iff_not_is_continuation_byte(bytes, i + 1);
    }
}

/// A subrange of a valid UTF-8 sequence between two character boundaries
/// is itself valid UTF-8.
pub proof fn lemma_valid_subrange(bytes: Seq<u8>, lo: int, hi: int)
    requires
        valid_utf8(bytes),
        0 <= lo <= hi <= bytes.len(),
        is_char_boundary(bytes, lo),
        is_char_boundary(bytes, hi),
    ensures
        valid_utf8(bytes.subrange(lo, hi)),
{
    valid_utf8_split(bytes, lo);
    let tail = bytes.subrange(lo, bytes.len() as int);
    assert(is_char_boundary(tail, hi - lo)) by {
        if hi < bytes.len() {
            is_char_boundary_iff_not_is_continuation_byte(bytes, hi);
            assert(tail[hi - lo] == bytes[hi]);
            is_char_boundary_iff_not_is_continuation_byte(tail, hi - lo);
        } else {
            is_char_boundary_start_end_of_seq(tail);
        }
    }
    valid_utf8_split(tail, hi - lo);
    assert(tail.subrange(0, hi - lo) =~= bytes.subrange(lo, hi));
}

/// View a byte vector as a slice.
pub fn byte_slice<'a>(v: &'a Vec<u8>) -> (r: &'a [u8])
    ensures
        r@ == v@,
{
    v
}

/// Copy a byte slice into an owned vector.
pub fn copy_bytes(s: &[u8]) -> (r: Vec<u8>)
    ensures
        r@ == s@,
{
    let mut out: Vec<u8> = Vec::new();
    let mut i: usize = 0;
    while i < s.len()
        invariant
            0 <= i <= s@.len(),
            out@ =~= s@.subrange(0, i as int),
        decreases s@.len() - i,
    {
        out.push(s[i]);
        i = i + 1;
    }
    proof {
        assert(s@.subrange(0, s@.len() as int) =~= s@);
    }
    out
}

/// Turn owned bytes back into a string. Every byte sequence handed here
/// was cut from UTF-8 input at ASCII delimiters, so it is valid UTF-8.
///
/// Relies on `String::from_utf8`: on valid UTF-8 input it returns `Ok`
/// with a string of exactly those bytes.
#[verifier::external_body]
pub fn string_from_utf8(v: Vec<u8>) -> (r: String)
    requires
        valid_utf8(v@),
    ensures
        bytes_of(r@) == v@,
{
    String::from_utf8(v).unwrap_or_default()
}

// ------------------------------------------------------------------
// Searching
// ------------------------------------------------------------------

/// Position of the first occurrence of `b` in `s` at or after `from`,
/// or `s.len()` when there is none.
pub open spec fn find_or_end(s: Seq<u8>, b: u8, from: int) -> int
    decreases s.len() - from,
    when 0 <= from <= s.len()
{
    if from >= s.len() {
        s.len() as int
    } else if s[from] == b {
        from
    } else {
        find_or_end(s, b, from + 1)
    }
}

pub proof fn lemma_find_or_end(s: Seq<u8>, b: u8, from: int)
    requires
        0 <= from <= s.len(),
    ensures
        from <= find_or_end(s, b, from) <= s.len(),
        find_or_end(s, b, from) < s.len() ==> s[find_or_end(s, b, from)] == b,
        forall|j: int| from <= j < find_or_end(s, b, from) ==> s[j] != b,
    decreases s.len() - from,
{
    if from < s.len() && s[from] != b {
        lemma_find_or_end(s, b, from + 1);
    }
}

/// Find the first occurrence of `b` in `s` at or after `from`.
pub fn find_byte(s: &[u8], b: u8, from: usize) -> (r: usize)
    requires
        from <= s@.len(),
    ensures
        r == find_or_end(s@, b, from as int),
        from <= r <= s@.len(),
        r < s@.len() ==> s@[r as int] == b,
        forall|j: int| from <= j < r ==> s@[j] != b,
{
    proof {
        lemma_find_or_end(s@, b, from as int);
    }
    let mut i: usize = from;
    while i < s.len()
        invariant
            from <= i <= s@.len(),
            forall|j: int| from <= j < i ==> s@[j] != b,
            find_or_end(s@, b, from as int) == find_or_end(s@, b, i as int),
        decreases s@.len() - i,
    {
        if s[i] == b {
            return i;
        }
        i = i + 1;
    }
    i
}

/// `p` occurs in `s` starting at position `i`.
pub open spec fn matches_at(s: Seq<u8>, p: Seq<u8>, i: int) -> bool {
    0 <= i && i + p.len() <= s.len() && s.subrange(i, i + p.len()) == p
}

/// `p` occurs somewhere in `s`.
pub open spec fn contains_seq(s: Seq<u8>, p: Seq<u8>) -> bool {
    exists|i: int| matches_at(s, p, i)
}

/// Compare `s[i .. i + p.len()]` with `p`.
pub fn check_match(s: &[u8], p: &[u8], i: usize) -> (r: bool)
    requires
        i + p@.len() <= s@.len(),
    ensures
        r == matches_at(s@, p@, i as int),
{
    let n = s.len();
    let mut j: usize = 0;
    while j < p.len()
        invariant
            0 <= j <= p@.len(),
            i + p@.len() <= s@.len(),
            n == s@.len(),
            forall|k: int| 0 <= k < j ==> s@[i + k] == p@[k],
        decreases p@.len() - j,
    {
        proof {
            assert(i + j < s@.len());
        }
        if s[i + j] != p[j] {
            proof {
                assert(s@.subrange(i as int, i + p@.len())[j as int] != p@[j as int]);
            }
            return false;
        }
        j = j + 1;
    }
    proof {
        assert(s@.subrange(i as int, i + p@.len()) =~= p@);
    }
    true
}

/// Whether `p` occurs somewhere in `s`.
pub fn contains_bytes(s: &[u8], p: &[u8]) -> (r: bool)
    requires
        p@.len() > 0,
    ensures
        r == contains_seq(s@, p@),
{
    if p.len() > s.len() {
        proof {
            assert forall|i: int| !matches_at(s@, p@, i) by {}
        }
        return false;
    }
    let mut i: usize = 0;
    let n = s.len();
    let last = n - p.len();
    while i <= last
        invariant
            0 <= i <= last + 1,
            p@.len() > 0,
            n == s@.len(),
            last < n,
            last == s@.len() - p@.len(),
            forall|k: int| 0 <= k < i ==> !matches_at(s@, p@, k),
        decreases last + 1 - i,
    {
        if check_match(s, p, i) {
            return true;
        }
        i = i + 1;
    }
    proof {
        assert forall|k: int| !matches_at(s@, p@, k) by {
            if 0 <= k <= last {
                assert(!matches_at(s@, p@, k));
            }
        }
    }
    false
}

/// Position of the first occurrence of `p` in `s` at or after `from`,
/// or `s.len()` when there is none.
pub open spec fn find_seq_or_end(s: Seq<u8>, p: Seq<u8>, from: int) -> int
    decreases s.len() - from,
    when 0 <= from <= s.len()
{
    if p.len() == 0 {
        s.len() as int
    } else if from + p.len() > s.len() {
        s.len() as int
    } else if matches_at(s, p, from) {
        from
    } else {
        find_seq_or_end(s, p, from + 1)
    }
}

pub proof fn lemma_find_seq_or_end(s: Seq<u8>, p: Seq<u8>, from: int)
    requires
        0 <= from <= s.len(),
        p.len() > 0,
    ensures
        from <= find_seq_or_end(s, p, from) <= s.len(),
        find_seq_or_end(s, p, from) < s.len() ==> matches_at(s, p, find_seq_or_end(s, p, from)),
        forall|j: int| from <= j < find_seq_or_end(s, p, from) ==> !matches_at(s, p, j),
    decreases s.len() - from,
{
    if from + p.len() > s.len() {
        assert forall|j: int| from <= j < s.len() implies !matches_at(s, p, j) by {}
    } else if !matches_at(s, p, from) {
        lemma_find_seq_or_end(s, p, from + 1);
    }
}

/// Find the first occurrence of `p` in `s` at or after `from`.
pub fn find_seq(s: &[u8], p: &[u8], from: usize) -> (r: usize)
    requires
        from <= s@.len(),
        p@.len() > 0,
    ensures
        r == find_seq_or_end(s@, p@, from as int),
{
    let mut i: usize = from;
    while s.len() - i >= p.len()
        invariant
            from <= i <= s@.len(),
            p@.len() > 0,
            find_seq_or_end(s@, p@, from as int) == find_seq_or_end(s@, p@, i as int),
        decreases s@.len() - i,
    {
        if check_match(s, p, i) {
            return i;
        }
        i = i + 1;
    }
    proof {
        assert(find_seq_or_end(s@, p@, i as int) == s@.len());
    }
    s.len()
}

// ------------------------------------------------------------------
// Splitting
// ------------------------------------------------------------------

/// A line with a trailing carriage return loses it.
pub open spec fn strip_cr(line: Seq<u8>) -> Seq<u8> {
    if line.len() > 0 && line[line.len() - 1] == 13 {
        line.drop_last()
    } else {
        line
    }
}

/// The lines of `s`: split on line feeds, each line stripped of a
/// trailing carriage return; a trailing line feed opens no empty line.
pub open spec fn split_lines(s: Seq<u8>) -> Seq<Seq<u8>>
    decreases s.len(),
    via split_lines_decreases
{
    if s.len() == 0 {
        seq![]
    } else {
        let i = find_or_end(s, 10, 0);
        if i == s.len() {
            seq![strip_cr(s)]
        } else {
            seq![strip_cr(s.subrange(0, i))] + split_lines(s.subrange(i + 1, s.len() as int))
        }
    }
}

#[via_fn]
proof fn split_lines_decreases(s: Seq<u8>) {
    if s.len() > 0 {
        lemma_find_or_end(s, 10, 0);
    }
}

/// The fields of `s` split on the byte `b`; empty fields are kept, and
/// a sequence without `b` is one single field.
pub open spec fn split_on(s: Seq<u8>, b: u8) -> Seq<Seq<u8>>
    decreases s.len(),
    via split_on_decreases
{
    let i = find_or_end(s, b, 0);
    if i == s.len() {
        seq![s]
    } else {
        seq![s.subrange(0, i)] + split_on(s.subrange(i + 1, s.len() as int), b)
    }
}

#[via_fn]
proof fn split_on_decreases(s: Seq<u8>, b: u8) {
    lemma_find_or_end(s, b, 0);
}

/// The fields of `s` split on the separator `p` (leftmost-first).
pub open spec fn split_on_seq(s: Seq<u8>, p: Seq<u8>) -> Seq<Seq<u8>>
    decreases s.len(),
    via split_on_seq_decreases
{
    if p.len() == 0 {
        seq![s]
    } else {
        let i = find_seq_or_end(s, p, 0);
        if i == s.len() {
            seq![s]
        } else {
            seq![s.subrange(0, i)] + split_on_seq(s.subrange(i + p.len(), s.len() as int), p)
        }
    }
}

#[via_fn]
proof fn split_on_seq_decreases(s: Seq<u8>, p: Seq<u8>) {
    if p.len() > 0 {
        lemma_find_seq_or_end(s, p, 0);
    }
}

/// Split `s` into lines, as [`split_lines`] describes.
pub fn lines_exec(s: &[u8]) -> (r: Vec<Vec<u8>>)
    ensures
        r@.map_values(|l: Vec<u8>| l@) == split_lines(s@),
{
    let mut out: Vec<Vec<u8>> = Vec::new();
    let mut pos: usize = 0;
    proof {
        assert(s@.subrange(0, s@.len() as int) =~= s@);
    }
    while pos < s.len()
        invariant
            0 <= pos <= s@.len(),
            out@.map_values(|l: Vec<u8>| l@) + split_lines(s@.subrange(pos as int, s@.len() as int))
                =~= split_lines(s@),
        decreases s@.len() - pos,
    {
        let ghost rest = s@.subrange(pos as int, s@.len() as int);
        let nl = find_byte(s, 10, pos);
        proof {
            lemma_find_or_end(rest, 10, 0);
            assert(find_or_end(rest, 10, 0) == nl - pos) by {
                lemma_find_shift(s@, 10, pos as int);
            }
        }
        // the line body, without the line feed and a trailing carriage return
        let mut end = nl;
        if end > pos && s[end - 1] == 13 {
            end = end - 1;
        }
        let mut line: Vec<u8> = Vec::new();
        let mut k: usize = pos;
        while k < end
            invariant
                pos <= k <= end <= s@.len(),
                line@ =~= s@.subrange(pos as int, k as int),
            decreases end - k,
        {
            line.push(s[k]);
            k = k + 1;
        }
        proof {
            let body = if nl == s@.len() { rest } else { rest.subrange(0, nl - pos) };
            assert(body =~= s@.subrange(pos as int, nl as int));
            assert(line@ =~= strip_cr(body));
            if nl == s@.len() {
                assert(split_lines(rest) =~= seq![strip_cr(rest)]);
            } else {
                assert(rest.subrange(nl - pos + 1, rest.len() as int) =~= s@.subrange(
                    nl + 1,
                    s@.len() as int,
                ));
            }
        }
        out.push(line);
        if nl == s.len() {
            pos = s.len();
        } else {
            pos = nl + 1;
        }
        proof {
            assert(out@.map_values(|l: Vec<u8>| l@) + split_lines(
                s@.subrange(pos as int, s@.len() as int),
            ) =~= split_lines(s@));
        }
    }
    proof {
        assert(s@.subrange(pos as int, s@.len() as int) =~= Seq::<u8>::empty());
        assert(out@.map_values(|l: Vec<u8>| l@) =~= split_lines(s@));
    }
    out
}

/// Searching from `from` in the whole sequence agrees with searching
/// from the start of the suffix that begins at `from`.
pub proof fn lemma_find_shift(s: Seq<u8>, b: u8, from: int)
    requires
        0 <= from <= s.len(),
    ensures
        find_or_end(s, b, from) == from + find_or_end(
            s.subrange(from, s.len() as int),
            b,
            0,
        ),
{
    let suffix = s.subrange(from, s.len() as int);
    lemma_find_or_end(s, b, from);
    lemma_find_or_end(suffix, b, 0);
    let i = find_or_end(s, b, from);
    let j = find_or_end(suffix, b, 0);
    if i < s.len() {
        assert(suffix[i - from] == b);
        assert(j <= i - from);
    }
    if j < suffix.len() {
        assert(s[from + j] == b);
        assert(i <= from + j);
    }
}

/// Split `s` on the byte `b`, as [`split_on`] describes.
pub fn split_on_exec(s: &[u8], b: u8) -> (r: Vec<Vec<u8>>)
    ensures
        r@.map_values(|f: Vec<u8>| f@) == split_on(s@, b),
{
    let mut out: Vec<Vec<u8>> = Vec::new();
    let mut pos: usize = 0;
    proof {
        assert(s@.subrange(0, s@.len() as int) =~= s@);
    }
    loop
        invariant
            0 <= pos <= s@.len(),
            out@.map_values(|f: Vec<u8>| f@) + split_on(s@.subrange(pos as int, s@.len() as int), b)
                =~= split_on(s@, b),
        decreases s@.len() - pos + 1,
    {
        let ghost rest = s@.subrange(pos as int, s@.len() as int);
        let d = find_byte(s, b, pos);
        proof {
            lemma_find_or_end(rest, b, 0);
            lemma_find_shift(s@, b, pos as int);
        }
        let mut field: Vec<u8> = Vec::new();
        let mut k: usize = pos;
        while k < d
            invariant
                pos <= k <= d <= s@.len(),
                field@ =~= s@.subrange(pos as int, k as int),
            decreases d - k,
        {
            field.push(s[k]);
            k = k + 1;
        }
        proof {
            if d == s@.len() {
                assert(field@ =~= rest);
                assert(split_on(rest, b) =~= seq![rest]);
            } else {
                assert(field@ =~= rest.subrange(0, d - pos));
                assert(rest.subrange(d - pos + 1, rest.len() as int) =~= s@.subrange(
                    d + 1,
                    s@.len() as int,
                ));
            }
        }
        out.push(field);
        if d == s.len() {
            proof {
                assert(out@.map_values(|f: Vec<u8>| f@) =~= split_on(s@, b));
            }
            return out;
        }
        pos = d + 1;
        proof {
            assert(out@.map_values(|f: Vec<u8>| f@) + split_on(
                s@.subrange(pos as int, s@.len() as int),
                b,
            ) =~= split_on(s@, b));
        }
    }
}

/// Split `s` on the separator `p`, as [`split_on_seq`] describes.
pub fn split_on_seq_exec(s: &[u8], p: &[u8]) -> (r: Vec<Vec<u8>>)
    requires
        p@.len() > 0,
    ensures
        r@.map_values(|f: Vec<u8>| f@) == split_on_seq(s@, p@),
{
    let mut out: Vec<Vec<u8>> = Vec::new();
    let mut pos: usize = 0;
    proof {
        assert(s@.subrange(0, s@.len() as int) =~= s@);
    }
    loop
        invariant
            0 <= pos <= s@.len(),
            p@.len() > 0,
            out@.map_values(|f: Vec<u8>| f@) + split_on_seq(
                s@.subrange(pos as int, s@.len() as int),
                p@,
            ) =~= split_on_seq(s@, p@),
        decreases s@.len() - pos + 1,
    {
        let ghost rest = s@.subrange(pos as int, s@.len() as int);
        let d = find_seq(s, p, pos);
        proof {
            lemma_find_seq_or_end(rest, p@, 0);
            lemma_find_seq_shift(s@, p@, pos as int);
        }
        let mut field: Vec<u8> = Vec::new();
        let mut k: usize = pos;
        while k < d
            invariant
                pos <= k <= d <= s@.len(),
                field@ =~= s@.subrange(pos as int, k as int),
            decreases d - k,
        {
            field.push(s[k]);
            k = k + 1;
        }
        proof {
            if d == s@.len() {
                assert(field@ =~= rest);
                assert(split_on_seq(rest, p@) =~= seq![rest]);
            } else {
                assert(field@ =~= rest.subrange(0, d - pos));
                assert(rest.subrange(d - pos + p@.len(), rest.len() as int) =~= s@.subrange(
                    d + p@.len(),
                    s@.len() as int,
                ));
            }
        }
        out.push(field);
        if d == s.len() {
            proof {
                assert(out@.map_values(|f: Vec<u8>| f@) =~= split_on_seq(s@, p@));
            }
            return out;
        }
        pos = d + p.len();
        proof {
            assert(out@.map_values(|f: Vec<u8>| f@) + split_on_seq(
                s@.subrange(pos as int, s@.len() as int),
                p@,
            ) =~= split_on_seq(s@, p@));
        }
    }
}

/// Like [`lemma_find_shift`], for a sequence pattern.
pub proof fn lemma_find_seq_shift(s: Seq<u8>, p: Seq<u8>, from: int)
    requires
        0 <= from <= s.len(),
        p.len() > 0,
    ensures
        find_seq_or_end(s, p, from) == from + find_seq_or_end(
            s.subrange(from, s.len() as int),
            p,
            0,
        ),
{
    let suffix = s.subrange(from, s.len() as int);
    lemma_find_seq_or_end(s, p, from);
    lemma_find_seq_or_end(suffix, p, 0);
    let i = find_seq_or_end(s, p, from);
    let j = find_seq_or_end(suffix, p, 0);
    assert forall|k: int| from <= k && k + p.len() <= s.len() implies matches_at(s, p, k)
        == matches_at(suffix, p, k - from) by {
        assert(s.subrange(k, k + p.len()) =~= suffix.subrange(k - from, k - from + p.len()));
    }
    if i < s.len() {
        assert(matches_at(suffix, p, i - from));
        assert(j <= i - from);
    }
    if j < suffix.len() {
        assert(matches_at(s, p, from + j));
        assert(i <= from + j);
    }
}

// ------------------------------------------------------------------
// Whitespace and trimming
// ------------------------------------------------------------------

/// ASCII whitespace, the only whitespace the parsers recognise.
pub open spec fn is_ws(b: u8) -> bool {
    b == 32 || (9 <= b && b <= 13)
}

/// Position of the first non-whitespace byte at or after `from`, or
/// `s.len()` when the rest is all whitespace.
pub open spec fn skip_ws(s: Seq<u8>, from: int) -> int
    decreases s.len() - from,
    when 0 <= from <= s.len()
{
    if from >= s.len() {
        s.len() as int
    } else if !is_ws(s[from]) {
        from
    } else {
        skip_ws(s, from + 1)
    }
}

pub proof fn lemma_skip_ws(s: Seq<u8>, from: int)
    requires
        0 <= from <= s.len(),
    ensures
        from <= skip_ws(s, from) <= s.len(),
        skip_ws(s, from) < s.len() ==> !is_ws(s[skip_ws(s, from)]),
        forall|j: int| from <= j < skip_ws(s, from) ==> is_ws(s[j]),
    decreases s.len() - from,
{
    if from < s.len() && is_ws(s[from]) {
        lemma_skip_ws(s, from + 1);
    }
}

/// Position of the first whitespace byte at or after `from`, or
/// `s.len()` when there is none.
pub open spec fn ws_or_end(s: Seq<u8>, from: int) -> int
    decreases s.len() - from,
    when 0 <= from <= s.len()
{
    if from >= s.len() {
        s.len() as int
    } else if is_ws(s[from]) {
        from
    } else {
        ws_or_end(s, from + 1)
    }
}

pub proof fn lemma_ws_or_end(s: Seq<u8>, from: int)
    requires
        0 <= from <= s.len(),
    ensures
        from <= ws_or_end(s, from) <= s.len(),
        ws_or_end(s, from) < s.len() ==> is_ws(s[ws_or_end(s, from)]),
        forall|j: int| from <= j < ws_or_end(s, from) ==> !is_ws(s[j]),
    decreases s.len() - from,
{
    if from < s.len() && !is_ws(s[from]) {
        lemma_ws_or_end(s, from + 1);
    }
}

/// Position after the last non-whitespace byte of `s[..upto]`, or `0`
/// when that prefix is all whitespace.
pub open spec fn rskip_ws(s: Seq<u8>, upto: int) -> int
    decreases upto,
    when 0 <= upto <= s.len()
{
    if upto <= 0 {
        0
    } else if !is_ws(s[upto - 1]) {
        upto
    } else {
        rskip_ws(s, upto - 1)
    }
}

pub proof fn lemma_rskip_ws(s: Seq<u8>, upto: int)
    requires
        0 <= upto <= s.len(),
    ensures
        0 <= rskip_ws(s, upto) <= upto,
        rskip_ws(s, upto) > 0 ==> !is_ws(s[rskip_ws(s, upto) - 1]),
        forall|j: int| rskip_ws(s, upto) <= j < upto ==> is_ws(s[j]),
    decreases upto,
{
    if upto > 0 && is_ws(s[upto - 1]) {
        lemma_rskip_ws(s, upto - 1);
    }
}

/// `s` with leading and trailing ASCII whitespace removed.
pub open spec fn trim_spec(s: Seq<u8>) -> Seq<u8> {
    let lo = skip_ws(s, 0);
    let hi = rskip_ws(s, s.len() as int);
    if lo <= hi {
        s.subrange(lo, hi)
    } else {
        Seq::empty()
    }
}

/// The trimmed range of `s`: `r.0` is the first non-whitespace position,
/// `r.1` the position after the last one; `r.0 == r.1` on all-whitespace.
pub fn trim_bounds(s: &[u8]) -> (r: (usize, usize))
    ensures
        r.0 <= r.1 <= s@.len(),
        trim_spec(s@) == s@.subrange(r.0 as int, r.1 as int),
        r.0 == skip_ws(s@, 0),
        r.1 >= r.0 ==> (r.1 == rskip_ws(s@, s@.len() as int) || (r.0 == r.1 && rskip_ws(
            s@,
            s@.len() as int,
        ) <= r.0)),
{
    proof {
        lemma_skip_ws(s@, 0);
        lemma_rskip_ws(s@, s@.len() as int);
    }
    let mut lo: usize = 0;
    while lo < s.len() && is_ws_exec(s[lo])
        invariant
            0 <= lo <= s@.len(),
            skip_ws(s@, 0) == skip_ws(s@, lo as int),
            forall|j: int| 0 <= j < lo ==> is_ws(s@[j]),
        decreases s@.len() - lo,
    {
        lo = lo + 1;
    }
    let mut hi: usize = s.len();
    while hi > lo && is_ws_exec(s[hi - 1])
        invariant
            lo <= hi <= s@.len(),
            rskip_ws(s@, s@.len() as int) == rskip_ws(s@, hi as int) || rskip_ws(
                s@,
                s@.len() as int,
            ) < lo,
            forall|j: int| hi <= j < s@.len() ==> is_ws(s@[j]),
        decreases hi,
    {
        hi = hi - 1;
    }
    proof {
        let slo = skip_ws(s@, 0);
        let shi = rskip_ws(s@, s@.len() as int);
        assert(lo == slo);
        if hi > lo {
            assert(hi == shi);
        } else {
            assert(trim_spec(s@) =~= s@.subrange(lo as int, hi as int));
        }
    }
    (lo, hi)
}

fn is_ws_exec(b: u8) -> (r: bool)
    ensures
        r == is_ws(b),
{
    b == 32 || (9 <= b && b <= 13)
}

/// Copy the trimmed middle of `s`.
pub fn trim_copy(s: &[u8]) -> (r: Vec<u8>)
    ensures
        r@ == trim_spec(s@),
{
    let (lo, hi) = trim_bounds(s);
    let mut out: Vec<u8> = Vec::new();
    let mut k: usize = lo;
    while k < hi
        invariant
            lo <= k <= hi <= s@.len(),
            out@ =~= s@.subrange(lo as int, k as int),
            trim_spec(s@) == s@.subrange(lo as int, hi as int),
        decreases hi - k,
    {
        out.push(s[k]);
        k = k + 1;
    }
    out
}

/// The trimmed middle of a valid UTF-8 sequence is valid: both cuts sit
/// at whitespace bytes or at the ends.
pub proof fn lemma_trim_valid(s: Seq<u8>)
    requires
        valid_utf8(s),
    ensures
        valid_utf8(trim_spec(s)),
{
    let lo = skip_ws(s, 0);
    let hi = rskip_ws(s, s.len() as int);
    lemma_skip_ws(s, 0);
    lemma_rskip_ws(s, s.len() as int);
    is_char_boundary_start_end_of_seq(s);
    if lo <= hi {
        if lo > 0 {
            lemma_boundary_after_ascii(s, lo - 1);
        }
        if hi < s.len() {
            lemma_ascii_is_boundary(s, hi);
        }
        lemma_valid_subrange(s, lo, hi);
    } else {
        assert(trim_spec(s) =~= Seq::<u8>::empty());
        encode_utf8_valid_utf8(Seq::<char>::empty());
        assert(encode_utf8(Seq::<char>::empty()) =~= Seq::<u8>::empty());
    }
}

/// The whitespace-separated tokens of `s`, each one nonempty.
pub open spec fn split_ws(s: Seq<u8>) -> Seq<Seq<u8>>
    decreases s.len(),
    via split_ws_decreases
{
    let a = skip_ws(s, 0);
    if a == s.len() {
        seq![]
    } else {
        let b = ws_or_end(s, a);
        seq![s.subrange(a, b)] + split_ws(s.subrange(b, s.len() as int))
    }
}

#[via_fn]
proof fn split_ws_decreases(s: Seq<u8>) {
    lemma_skip_ws(s, 0);
    if skip_ws(s, 0) < s.len() {
        lemma_ws_or_end(s, skip_ws(s, 0));
    }
}

proof fn lemma_skip_ws_shift(s: Seq<u8>, from: int)
    requires
        0 <= from <= s.len(),
    ensures
        skip_ws(s, from) == from + skip_ws(s.subrange(from, s.len() as int), 0),
        from <= skip_ws(s, from) < s.len() ==> ws_or_end(s, skip_ws(s, from)) == from + ws_or_end(
            s.subrange(from, s.len() as int),
            skip_ws(s, from) - from,
        ),
{
    let suffix = s.subrange(from, s.len() as int);
    lemma_skip_ws(s, from);
    lemma_skip_ws(suffix, 0);
    let i = skip_ws(s, from);
    let j = skip_ws(suffix, 0);
    if i < s.len() {
        assert(!is_ws(suffix[i - from]));
        assert(j <= i - from) by {
            if j > i - from {
                assert(is_ws(suffix[i - from]));
            }
        }
    }
    if j < suffix.len() {
        assert(!is_ws(s[from + j]));
        assert(i <= from + j) by {
            if i > from + j {
                assert(is_ws(s[from + j]));
            }
        }
    }
    if from <= i < s.len() {
        lemma_ws_or_end(s, i);
        lemma_ws_or_end(suffix, i - from);
        let a = ws_or_end(s, i);
        let c = ws_or_end(suffix, i - from);
        if a < s.len() {
            assert(is_ws(suffix[a - from]));
            assert(c <= a - from);
        }
        if c < suffix.len() {
            assert(is_ws(s[from + c]));
            assert(a <= from + c);
        }
    }
}

/// Split `s` into whitespace-separated tokens, as [`split_ws`] describes.
pub fn split_ws_exec(s: &[u8]) -> (r: Vec<Vec<u8>>)
    ensures
        r@.map_values(|t: Vec<u8>| t@) == split_ws(s@),
{
    let mut out: Vec<Vec<u8>> = Vec::new();
    let mut pos: usize = 0;
    proof {
        assert(s@.subrange(0, s@.len() as int) =~= s@);
    }
    loop
        invariant
            0 <= pos <= s@.len(),
            out@.map_values(|t: Vec<u8>| t@) + split_ws(s@.subrange(pos as int, s@.len() as int))
                =~= split_ws(s@),
        decreases s@.len() - pos,
    {
        let ghost rest = s@.subrange(pos as int, s@.len() as int);
        // find the start of the next token
        let mut a: usize = pos;
        while a < s.len() && is_ws_exec(s[a])
            invariant
                pos <= a <= s@.len(),
                skip_ws(s@, pos as int) == skip_ws(s@, a as int),
            decreases s@.len() - a,
        {
            a = a + 1;
        }
        proof {
            lemma_skip_ws(s@, pos as int);
            assert(a == skip_ws(s@, pos as int));
            lemma_skip_ws_shift(s@, pos as int);
        }
        if a == s.len() {
            proof {
                assert(split_ws(rest) =~= Seq::<Seq<u8>>::empty());
                assert(out@.map_values(|t: Vec<u8>| t@) =~= split_ws(s@));
            }
            return out;
        }
        // find its end
        let mut b: usize = a;
        while b < s.len() && !is_ws_exec(s[b])
            invariant
                a <= b <= s@.len(),
                ws_or_end(s@, a as int) == ws_or_end(s@, b as int),
            decreases s@.len() - b,
        {
            b = b + 1;
        }
        proof {
            lemma_ws_or_end(s@, a as int);
            assert(b == ws_or_end(s@, a as int));
        }
        let mut tok: Vec<u8> = Vec::new();
        let mut k: usize = a;
        while k < b
            invariant
                a <= k <= b <= s@.len(),
                tok@ =~= s@.subrange(a as int, k as int),
            decreases b - k,
        {
            tok.push(s[k]);
            k = k + 1;
        }
        out.push(tok);
        proof {
            assert(rest.subrange(a - pos, b - pos) =~= s@.subrange(a as int, b as int));
            assert(rest.subrange(b - pos, rest.len() as int) =~= s@.subrange(
                b as int,
                s@.len() as int,
            ));
        }
        pos = b;
        proof {
            assert(out@.map_values(|t: Vec<u8>| t@) + split_ws(
                s@.subrange(pos as int, s@.len() as int),
            ) =~= split_ws(s@));
        }
    }
}

// ------------------------------------------------------------------
// Prefixes and equality
// ------------------------------------------------------------------

/// `s` begins with `p`.
pub open spec fn starts_with(s: Seq<u8>, p: Seq<u8>) -> bool {
    p.len() <= s.len() && s.subrange(0, p.len() as int) == p
}

/// Whether `s` begins with `p`.
pub fn starts_with_exec(s: &[u8], p: &[u8]) -> (r: bool)
    ensures
        r == starts_with(s@, p@),
{
    if p.len() > s.len() {
        return false;
    }
    check_match(s, p, 0)
}

/// Whether `a` and `b` hold the same bytes.
pub fn bytes_eq(a: &[u8], b: &[u8]) -> (r: bool)
    ensures
        r == (a@ == b@),
{
    if a.len() != b.len() {
        return false;
    }
    let r = check_match(a, b, 0);
    proof {
        assert(a@.subrange(0, b@.len() as int) =~= a@);
    }
    r
}

// ------------------------------------------------------------------
// Case folding
// ------------------------------------------------------------------

/// ASCII lower-casing of one byte.
pub open spec fn lower_byte(b: u8) -> u8 {
    if 65 <= b && b <= 90 {
        (b + 32) as u8
    } else {
        b
    }
}

/// ASCII upper-casing of one byte.
pub open spec fn upper_byte(b: u8) -> u8 {
    if 97 <= b && b <= 122 {
        (b - 32) as u8
    } else {
        b
    }
}

/// ASCII lower-casing of a byte sequence.
pub open spec fn lower_seq(s: Seq<u8>) -> Seq<u8> {
    s.map_values(|b: u8| lower_byte(b))
}

/// ASCII upper-casing of a byte sequence.
pub open spec fn upper_seq(s: Seq<u8>) -> Seq<u8> {
    s.map_values(|b: u8| upper_byte(b))
}

/// ASCII-lowercase a byte sequence.
pub fn lower_vec(s: &[u8]) -> (r: Vec<u8>)
    ensures
        r@ == lower_seq(s@),
{
    let mut out: Vec<u8> = Vec::new();
    let mut i: usize = 0;
    while i < s.len()
        invariant
            0 <= i <= s@.len(),
            out@ =~= s@.subrange(0, i as int).map_values(|b: u8| lower_byte(b)),
        decreases s@.len() - i,
    {
        let b = s[i];
        if 65 <= b && b <= 90 {
            out.push(b + 32);
        } else {
            out.push(b);
        }
        i = i + 1;
        proof {
            assert(out@ =~= s@.subrange(0, i as int).map_values(|b: u8| lower_byte(b)));
        }
    }
    proof {
        assert(s@.subrange(0, s@.len() as int) =~= s@);
    }
    out
}

/// ASCII-uppercase a byte sequence.
pub fn upper_vec(s: &[u8]) -> (r: Vec<u8>)
    ensures
        r@ == upper_seq(s@),
{
    let mut out: Vec<u8> = Vec::new();
    let mut i: usize = 0;
    while i < s.len()
        invariant
            0 <= i <= s@.len(),
            out@ =~= s@.subrange(0, i as int).map_values(|b: u8| upper_byte(b)),
        decreases s@.len() - i,
    {
        let b = s[i];
        if 97 <= b && b <= 122 {
            out.push(b - 32);
        } else {
            out.push(b);
        }
        i = i + 1;
        proof {
            assert(out@ =~= s@.subrange(0, i as int).map_values(|b: u8| upper_byte(b)));
        }
    }
    proof {
        assert(s@.subrange(0, s@.len() as int) =~= s@);
    }
    out
}

// ------------------------------------------------------------------
// Lexicographic order
// ------------------------------------------------------------------

/// Lexicographic order on byte sequences.
pub open spec fn lex_le(a: Seq<u8>, b: Seq<u8>) -> bool
    decreases a.len(),
{
    if a.len() == 0 {
        true
    } else if b.len() == 0 {
        false
    } else if a[0] < b[0] {
        true
    } else if a[0] > b[0] {
        false
    } else {
        lex_le(a.drop_first(), b.drop_first())
    }
}

/// The order is total.
pub proof fn lemma_lex_total(a: Seq<u8>, b: Seq<u8>)
    ensures
        lex_le(a, b) || lex_le(b, a),
    decreases a.len(),
{
    if a.len() > 0 && b.len() > 0 && a[0] == b[0] {
        lemma_lex_total(a.drop_first(), b.drop_first());
    }
}

/// The order is reflexive.
pub proof fn lemma_lex_refl(a: Seq<u8>)
    ensures
        lex_le(a, a),
    decreases a.len(),
{
    if a.len() > 0 {
        lemma_lex_refl(a.drop_first());
    }
}

/// Compare two byte sequences lexicographically.
pub fn lex_le_exec(a: &[u8], b: &[u8]) -> (r: bool)
    ensures
        r == lex_le(a@, b@),
{
    let mut i: usize = 0;
    proof {
        assert(a@.subrange(0, a@.len() as int) =~= a@);
        assert(b@.subrange(0, b@.len() as int) =~= b@);
    }
    while i < a.len() && i < b.len()
        invariant
            0 <= i <= a@.len(),
            i <= b@.len(),
            lex_le(a@, b@) == lex_le(
                a@.subrange(i as int, a@.len() as int),
                b@.subrange(i as int, b@.len() as int),
            ),
        decreases a@.len() - i,
    {
        let ghost sa = a@.subrange(i as int, a@.len() as int);
        let ghost sb = b@.subrange(i as int, b@.len() as int);
        if a[i] < b[i] {
            return true;
        }
        if a[i] > b[i] {
            return false;
        }
        proof {
            assert(sa.drop_first() =~= a@.subrange(i + 1, a@.len() as int));
            assert(sb.drop_first() =~= b@.subrange(i + 1, b@.len() as int));
        }
        i = i + 1;
    }
    proof {
        let sa = a@.subrange(i as int, a@.len() as int);
        let sb = b@.subrange(i as int, b@.len() as int);
        assert(sa.len() == 0 || sb.len() == 0);
    }
    i >= a.len()
}

// ------------------------------------------------------------------
// Decimal digits
// ------------------------------------------------------------------

/// An ASCII decimal digit.
pub open spec fn is_digit(b: u8) -> bool {
    48 <= b && b <= 57
}

/// Every byte of `s` is a digit.
pub open spec fn all_digits(s: Seq<u8>) -> bool {
    forall|i: int| 0 <= i < s.len() ==> is_digit(s[i])
}

/// The number a run of digits denotes.
pub open spec fn digits_val(s: Seq<u8>) -> nat
    decreases s.len(),
{
    if s.len() == 0 {
        0
    } else {
        digits_val(s.drop_last()) * 10 + (s[s.len() - 1] - 48) as nat
    }
}

proof fn lemma_digits_val_monotonic(s: Seq<u8>, i: int)
    requires
        0 <= i <= s.len(),
    ensures
        digits_val(s.subrange(0, i)) <= digits_val(s),
    decreases s.len() - i,
{
    if i < s.len() {
        lemma_digits_val_monotonic(s, i + 1);
        let a = s.subrange(0, i);
        let b = s.subrange(0, i + 1);
        assert(b.drop_last() =~= a);
        assert(digits_val(b) == digits_val(a) * 10 + (b[b.len() - 1] - 48) as nat);
    } else {
        assert(s.subrange(0, i) =~= s);
    }
}

/// The value of the digit run `s[lo..hi]`, or `None` when it does not
/// fit in a `u32`.
pub fn parse_u32(s: &[u8], lo: usize, hi: usize) -> (r: Option<u32>)
    requires
        lo <= hi <= s@.len(),
        all_digits(s@.subrange(lo as int, hi as int)),
    ensures
        ({
            let v = digits_val(s@.subrange(lo as int, hi as int));
            match r {
                Some(x) => x == v && v <= u32::MAX,
                None => v > u32::MAX,
            }
        }),
{
    let ghost run = s@.subrange(lo as int, hi as int);
    let mut acc: u64 = 0;
    let mut i: usize = lo;
    while i < hi
        invariant
            lo <= i <= hi <= s@.len(),
            run == s@.subrange(lo as int, hi as int),
            all_digits(run),
            acc == digits_val(run.subrange(0, i - lo)),
            acc <= u32::MAX,
        decreases hi - i,
    {
        let d = s[i];
        proof {
            assert(run[i - lo] == s@[i as int]);
            assert(is_digit(d));
        }
        let next: u64 = acc * 10 + ((d - 48) as u64);
        proof {
            let a = run.subrange(0, i - lo);
            let b = run.subrange(0, i - lo + 1);
            assert(b.drop_last() =~= a);
            assert(b[b.len() - 1] == run[i - lo]);
            assert(digits_val(b) == digits_val(a) * 10 + (d - 48) as nat);
        }
        if next > 0xffff_ffff {
            proof {
                lemma_digits_val_monotonic(run, i - lo + 1);
            }
            return None;
        }
        acc = next;
        i = i + 1;
    }
    proof {
        assert(run.subrange(0, hi - lo) =~= run);
    }
    Some(acc as u32)
}

// ------------------------------------------------------------------
// Decimal formatting
// ------------------------------------------------------------------

/// The digit character for `d`.
pub open spec fn digit_char(d: nat) -> char
    recommends
        d < 10,
{
    ((48 + d) as u8) as char
}

/// The decimal representation of `v`, most significant digit first.
pub open spec fn dec_chars(v: nat) -> Seq<char>
    decreases v,
{
    if v < 10 {
        seq![digit_char(v)]
    } else {
        dec_chars(v / 10).push(digit_char(v % 10))
    }
}

fn digit_str(d: u8) -> (r: &'static str)
    requires
        d < 10,
    ensures
        r@ == seq![digit_char(d as nat)],
{
    proof {
        reveal_strlit("0");
        reveal_strlit("1");
        reveal_strlit("2");
        reveal_strlit("3");
        reveal_strlit("4");
        reveal_strlit("5");
        reveal_strlit("6");
        reveal_strlit("7");
        reveal_strlit("8");
        reveal_strlit("9");
    }
    if d == 0 {
        "0"
    } else if d == 1 {
        "1"
    } else if d == 2 {
        "2"
    } else if d == 3 {
        "3"
    } else if d == 4 {
        "4"
    } else if d == 5 {
        "5"
    } else if d == 6 {
        "6"
    } else if d == 7 {
        "7"
    } else if d == 8 {
        "8"
    } else {
        "9"
    }
}

/// Format `v` in decimal.
pub fn u32_to_string(v: u32) -> (r: String)
    ensures
        r@ == dec_chars(v as nat),
{
    // peel digits, least significant first
    let mut digs: Vec<u8> = Vec::new();
    let mut x: u32 = v;
    while x >= 10
        invariant
            dec_chars(v as nat) =~= dec_chars(x as nat) + digs@.reverse().map_values(
                |d: u8| digit_char(d as nat),
            ),
            forall|k: int| 0 <= k < digs@.len() ==> digs@[k] < 10,
        decreases x,
    {
        let d = x % 10;
        x = x / 10;
        digs.push(d as u8);
        proof {
            let old_digs = digs@.drop_last();
            assert(digs@.reverse() =~= seq![d as u8] + old_digs.reverse());
            assert(digs@.reverse().map_values(|b: u8| digit_char(b as nat)) =~= seq![
                digit_char(d as nat),
            ] + old_digs.reverse().map_values(|b: u8| digit_char(b as nat)));
        }
    }
    let mut r = String::from_str(digit_str((x % 10) as u8));
    proof {
        assert(dec_chars(x as nat) =~= seq![digit_char((x % 10) as nat)]);
        assert(r@ =~= dec_chars(x as nat) + digs@.reverse().map_values(
            |d: u8| digit_char(d as nat),
        ).subrange(0, 0));
    }
    let ghost suffix = digs@.reverse().map_values(|d: u8| digit_char(d as nat));
    let mut k: usize = digs.len();
    while k > 0
        invariant
            0 <= k <= digs@.len(),
            suffix == digs@.reverse().map_values(|d: u8| digit_char(d as nat)),
            forall|j: int| 0 <= j < digs@.len() ==> digs@[j] < 10,
            r@ =~= dec_chars(x as nat) + suffix.subrange(0, digs@.len() - k),
            dec_chars(v as nat) == dec_chars(x as nat) + suffix,
        decreases k,
    {
        let d = digs[k - 1];
        r.append(digit_str(d));
        proof {
            assert(suffix[digs@.len() - k] == digit_char(digs@[k - 1] as nat));
            assert(r@ =~= dec_chars(x as nat) + suffix.subrange(0, digs@.len() - (k - 1)));
        }
        k = k - 1;
    }
    proof {
        assert(suffix.subrange(0, digs@.len() as int) =~= suffix);
        assert(r@ =~= dec_chars(v as nat));
    }
    r
}

// ------------------------------------------------------------------
// Encoding facts
// ------------------------------------------------------------------

/// Encoding distributes over concatenation.
pub proof fn lemma_encode_concat(a: Seq<char>, b: Seq<char>)
    ensures
        encode_utf8(a + b) == encode_utf8(a) + encode_utf8(b),
    decreases a.len(),
{
    if a.len() == 0 {
        assert(a + b =~= b);
        assert(encode_utf8(a) =~= Seq::<u8>::empty());
        assert(encode_utf8(a) + encode_utf8(b) =~= encode_utf8(b));
    } else {
        assert((a + b).drop_first() =~= a.drop_first() + b);
        lemma_encode_concat(a.drop_first(), b);
        assert(encode_utf8(a + b) =~= encode_utf8(a) + encode_utf8(b));
    }
}

/// Two strings with the same bytes are the same string.
pub proof fn lemma_bytes_eq_strings_eq(a: Seq<char>, b: Seq<char>)
    requires
        encode_utf8(a) == encode_utf8(b),
    ensures
        a == b,
{
    broadcast use encode_utf8_decode_utf8;

    assert(decode_utf8(encode_utf8(a)) == a);
    assert(decode_utf8(encode_utf8(b)) == b);
}

/// Every line of a valid UTF-8 sequence is valid UTF-8.
pub proof fn lemma_split_lines_valid(s: Seq<u8>)
    requires
        valid_utf8(s),
    ensures
        forall|k: int|
            0 <= k < split_lines(s).len() ==> valid_utf8(#[trigger] split_lines(s)[k]),
    decreases s.len(),
{
    if s.len() > 0 {
        let i = find_or_end(s, 10, 0);
        lemma_find_or_end(s, 10, 0);
        let body = if i == s.len() { s } else { s.subrange(0, i) };
        assert(valid_utf8(body)) by {
            if i < s.len() {
                lemma_ascii_is_boundary(s, i);
                is_char_boundary_start_end_of_seq(s);
                lemma_valid_subrange(s, 0, i);
            }
        }
        assert(valid_utf8(strip_cr(body))) by {
            if body.len() > 0 && body[body.len() - 1] == 13 {
                lemma_ascii_is_boundary(body, body.len() - 1);
                is_char_boundary_start_end_of_seq(body);
                lemma_valid_subrange(body, 0, body.len() - 1);
                assert(body.drop_last() =~= body.subrange(0, body.len() - 1));
            }
        }
        if i < s.len() {
            let rest = s.subrange(i + 1, s.len() as int);
            assert(valid_utf8(rest)) by {
                lemma_boundary_after_ascii(s, i);
                is_char_boundary_start_end_of_seq(s);
                lemma_valid_subrange(s, i + 1, s.len() as int);
            }
            lemma_split_lines_valid(rest);
            assert forall|k: int|
                0 <= k < split_lines(s).len() implies valid_utf8(
                #[trigger] split_lines(s)[k],
            ) by {
                if k == 0 {
                    assert(split_lines(s)[0] == strip_cr(body));
                } else {
                    assert(split_lines(s)[k] == split_lines(rest)[k - 1]);
                }
            }
        } else {
            assert(split_lines(s) =~= seq![strip_cr(body)]);
        }
    }
}

/// Every field of a split on an ASCII byte is valid UTF-8.
pub proof fn lemma_split_on_valid(s: Seq<u8>, b: u8)
    requires
        valid_utf8(s),
        is_ascii_byte(b),
    ensures
        forall|k: int|
            0 <= k < split_on(s, b).len() ==> valid_utf8(#[trigger] split_on(s, b)[k]),
    decreases s.len(),
{
    let i = find_or_end(s, b, 0);
    lemma_find_or_end(s, b, 0);
    if i < s.len() {
        assert(valid_utf8(s.subrange(0, i))) by {
            lemma_ascii_is_boundary(s, i);
            is_char_boundary_start_end_of_seq(s);
            lemma_valid_subrange(s, 0, i);
        }
        let rest = s.subrange(i + 1, s.len() as int);
        assert(valid_utf8(rest)) by {
            lemma_boundary_after_ascii(s, i);
            is_char_boundary_start_end_of_seq(s);
            lemma_valid_subrange(s, i + 1, s.len() as int);
        }
        lemma_split_on_valid(rest, b);
        assert forall|k: int|
            0 <= k < split_on(s, b).len() implies valid_utf8(#[trigger] split_on(s, b)[k]) by {
            if k == 0 {
                assert(split_on(s, b)[0] == s.subrange(0, i));
            } else {
                assert(split_on(s, b)[k] == split_on(rest, b)[k - 1]);
            }
        }
    } else {
        assert(split_on(s, b) =~= seq![s]);
    }
}

/// Every field of a split on an all-ASCII separator is valid UTF-8.
pub proof fn lemma_split_on_seq_parts_valid(s: Seq<u8>, p: Seq<u8>)
    requires
        valid_utf8(s),
        p.len() > 0,
        forall|i: int| 0 <= i < p.len() ==> is_ascii_byte(p[i]),
    ensures
        forall|k: int|
            0 <= k < split_on_seq(s, p).len() ==> valid_utf8(#[trigger] split_on_seq(s, p)[k]),
    decreases s.len(),
{
    let i = find_seq_or_end(s, p, 0);
    lemma_find_seq_or_end(s, p, 0);
    if i < s.len() {
        assert(s[i] == p[0]) by {
            assert(s.subrange(i, i + p.len())[0] == p[0]);
        }
        assert(valid_utf8(s.subrange(0, i))) by {
            lemma_ascii_is_boundary(s, i);
            is_char_boundary_start_end_of_seq(s);
            lemma_valid_subrange(s, 0, i);
        }
        let cut = i + p.len();
        let rest = s.subrange(cut, s.len() as int);
        assert(valid_utf8(rest)) by {
            assert(s[cut - 1] == p[p.len() - 1]) by {
                assert(s.subrange(i, i + p.len())[p.len() - 1] == p[p.len() - 1]);
            }
            lemma_boundary_after_ascii(s, cut - 1);
            is_char_boundary_start_end_of_seq(s);
            lemma_valid_subrange(s, cut, s.len() as int);
        }
        lemma_split_on_seq_parts_valid(rest, p);
        assert forall|k: int|
            0 <= k < split_on_seq(s, p).len() implies valid_utf8(
            #[trigger] split_on_seq(s, p)[k],
        ) by {
            if k == 0 {
                assert(split_on_seq(s, p)[0] == s.subrange(0, i));
            } else {
                assert(split_on_seq(s, p)[k] == split_on_seq(rest, p)[k - 1]);
            }
        }
    } else {
        assert(split_on_seq(s, p) =~= seq![s]);
    }
}

/// Every token of a whitespace split is valid UTF-8.
pub proof fn lemma_split_ws_valid(s: Seq<u8>)
    requires
        valid_utf8(s),
    ensures
        forall|k: int| 0 <= k < split_ws(s).len() ==> valid_utf8(#[trigger] split_ws(s)[k]),
    decreases s.len(),
{
    let a = skip_ws(s, 0);
    lemma_skip_ws(s, 0);
    if a < s.len() {
        let b = ws_or_end(s, a);
        lemma_ws_or_end(s, a);
        is_char_boundary_start_end_of_seq(s);
        assert(valid_utf8(s.subrange(a, b))) by {
            if a < s.len() {
                if a == 0 {
                } else {
                    lemma_boundary_after_ascii(s, a - 1);
                }
            }
            if a == 0 {
                if b < s.len() {
                    lemma_ascii_is_boundary(s, b);
                }
                lemma_valid_subrange(s, 0, b);
            } else {
                lemma_boundary_after_ascii(s, a - 1);
                if b < s.len() {
                    lemma_ascii_is_boundary(s, b);
                }
                lemma_valid_subrange(s, a, b);
            }
        }
        let rest = s.subrange(b, s.len() as int);
        assert(valid_utf8(rest)) by {
            if b < s.len() {
                lemma_ascii_is_boundary(s, b);
            }
            lemma_valid_subrange(s, b, s.len() as int);
        }
        lemma_split_ws_valid(rest);
        assert forall|k: int|
            0 <= k < split_ws(s).len() implies valid_utf8(#[trigger] split_ws(s)[k]) by {
            if k == 0 {
                assert(split_ws(s)[0] == s.subrange(a, b));
            } else {
                assert(split_ws(s)[k] == split_ws(rest)[k - 1]);
            }
        }
    }
}

/// The fields joined with a separator between them.
pub open spec fn join_with(fields: Seq<Seq<u8>>, sep: Seq<u8>) -> Seq<u8>
    decreases fields.len(),
{
    if fields.len() == 0 {
        Seq::empty()
    } else if fields.len() == 1 {
        fields[0]
    } else {
        join_with(fields.drop_last(), sep) + sep + fields[fields.len() - 1]
    }
}

/// Join the fields, as [`join_with`] describes.
#[verifier::loop_isolation(false)]
pub fn join_with_exec(fields: &Vec<Vec<u8>>, sep: &[u8]) -> (r: Vec<u8>)
    ensures
        r@ == join_with(fields@.map_values(|f: Vec<u8>| f@), sep@),
{
    let ghost sf = fields@.map_values(|f: Vec<u8>| f@);
    let mut out: Vec<u8> = Vec::new();
    let mut i: usize = 0;
    proof {
        assert(out@ =~= join_with(sf.subrange(0, 0), sep@));
        assert(sf.subrange(0, 0) =~= Seq::<Seq<u8>>::empty());
    }
    while i < fields.len()
        invariant
            0 <= i <= fields@.len(),
            out@ == join_with(sf.subrange(0, i as int), sep@),
        decreases fields@.len() - i,
    {
        if i > 0 {
            let mut k: usize = 0;
            let ghost mid = out@;
            while k < sep.len()
                invariant
                    0 <= k <= sep@.len(),
                    out@ =~= mid + sep@.subrange(0, k as int),
                decreases sep@.len() - k,
            {
                out.push(sep[k]);
                k = k + 1;
            }
            proof {
                assert(sep@.subrange(0, sep@.len() as int) =~= sep@);
            }
        }
        let f = byte_slice(&fields[i]);
        let mut k2: usize = 0;
        let ghost mid2 = out@;
        while k2 < f.len()
            invariant
                0 <= k2 <= f@.len(),
                out@ =~= mid2 + f@.subrange(0, k2 as int),
            decreases f@.len() - k2,
        {
            out.push(f[k2]);
            k2 = k2 + 1;
        }
        proof {
            assert(f@.subrange(0, f@.len() as int) =~= f@);
            assert(f@ == sf[i as int]);
            let p2 = sf.subrange(0, i + 1);
            assert(p2.drop_last() =~= sf.subrange(0, i as int));
            assert(p2[p2.len() - 1] == sf[i as int]);
            if i == 0 {
                assert(out@ =~= join_with(p2, sep@));
            } else {
                assert(out@ =~= join_with(p2, sep@));
            }
        }
        i = i + 1;
    }
    proof {
        assert(sf.subrange(0, sf.len() as int) =~= sf);
    }
    out
}

/// The join of valid UTF-8 fields with a valid separator is valid.
pub proof fn lemma_join_with_valid(fields: Seq<Seq<u8>>, sep: Seq<u8>)
    requires
        valid_utf8(sep),
        forall|k: int| 0 <= k < fields.len() ==> valid_utf8(#[trigger] fields[k]),
    ensures
        valid_utf8(join_with(fields, sep)),
    decreases fields.len(),
{
    broadcast use vstd::utf8::valid_utf8_concat;

    if fields.len() == 0 {
        assert(valid_utf8(Seq::<u8>::empty())) by {
            vstd::utf8::encode_utf8_valid_utf8(Seq::<char>::empty());
            assert(encode_utf8(Seq::<char>::empty()) =~= Seq::<u8>::empty());
        }
    } else if fields.len() == 1 {
    } else {
        let t = fields.drop_last();
        assert(forall|k: int| 0 <= k < t.len() ==> valid_utf8(#[trigger] t[k]));
        lemma_join_with_valid(t, sep);
        valid_utf8_concat(join_with(t, sep), sep);
        valid_utf8_concat(join_with(t, sep) + sep, fields[fields.len() - 1]);
    }
}

/// The bytes of an all-ASCII string are its characters, byte for byte.
pub proof fn lemma_ascii_literal_bytes(s: Seq<char>, bytes: Seq<u8>)
    requires
        s.len() == bytes.len(),
        forall|i: int| 0 <= i < s.len() ==> s[i] == bytes[i] as char,
        forall|i: int| 0 <= i < bytes.len() ==> bytes[i] < 128,
    ensures
        bytes_of(s) == bytes,
    decreases s.len(),
{
    if s.len() > 0 {
        let c = s[0];
        let b = bytes[0];
        assert(c as u32 == b as u32) by {
            assert(c == b as char);
        }
        assert(has_width_1_encoding(c as u32));
        let cu: u32 = c as u32;
        assert(encode_scalar(cu) =~= seq![b]) by {
            assert(leading_byte_width_1(cu) == b) by (bit_vector)
                requires
                    cu == b as u32,
                    b < 128,
            ;
        }
        lemma_ascii_literal_bytes(s.drop_first(), bytes.drop_first());
        assert(bytes_of(s) =~= bytes);
    } else {
        assert(bytes_of(s) =~= bytes);
    }
}

} // verus!
