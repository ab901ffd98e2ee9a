//! Audio level and mute state, read from mixer-tool output.
//!
//! Two incompatible mixer tools serve this capability; the first one
//! found wins. One prints levels as `NN%` tokens, the other as a decimal
//! fraction (`Volume: 0.52 [MUTED]`). Both parsers work on the tool
//! output alone and are total: unreadable output falls back to a safe
//! default level rather than failing a read-only telemetry call.

use vstd::prelude::*;
use crate::text::{
    all_digits, byte_slice, bytes_of, contains_bytes, contains_seq, digits_val, find_byte, find_or_end,
    is_digit, lemma_find_or_end, parse_u32, split_on, split_on_exec, split_ws, split_ws_exec,
    upper_seq, upper_vec,
};
use vstd::string::StringSliceAdditionalSpecFns;

verus! {

broadcast use vstd::string::group_string_axioms;

/// The audio state handed to the UI: level, mute, and what is playing.
pub struct AudioInfo {
    /// Volume percentage in `0 ..= 150`.
    pub volume: u32,
    /// Whether the sink is muted.
    pub is_muted: bool,
    /// Title of the current track, when a player reports one.
    pub current_track: Option<String>,
    /// Artist of the current track, when a player reports one.
    pub current_artist: Option<String>,
    /// Whether a player is currently playing.
    pub is_playing: bool,
}

/// The level used when no mixer output can be read.
pub const DEFAULT_VOLUME: u32 = 50;

// ------------------------------------------------------------------
// `NN%` output
// ------------------------------------------------------------------

/// Start of the maximal digit run that ends just before position `i`.
pub open spec fn run_start(s: Seq<u8>, i: int) -> int
    decreases i,
    when 0 <= i <= s.len()
{
    if i <= 0 {
        0
    } else if is_digit(s[i - 1]) {
        run_start(s, i - 1)
    } else {
        i
    }
}

pub proof fn lemma_run_start(s: Seq<u8>, i: int)
    requires
        0 <= i <= s.len(),
    ensures
        0 <= run_start(s, i) <= i,
        forall|k: int| run_start(s, i) <= k < i ==> is_digit(s[k]),
        run_start(s, i) > 0 ==> !is_digit(s[run_start(s, i) - 1]),
    decreases i,
{
    if i > 0 && is_digit(s[i - 1]) {
        lemma_run_start(s, i - 1);
    }
}

/// Position `i` holds a percent sign preceded by a digit run whose value
/// fits a `u32`.
pub open spec fn percent_hit(s: Seq<u8>, i: int) -> bool {
    &&& 0 < i < s.len()
    &&& s[i] == 37
    &&& run_start(s, i) < i
    &&& digits_val(s.subrange(run_start(s, i), i)) <= u32::MAX
}

/// The value before the first qualifying percent sign at or after `from`.
pub open spec fn first_percent_value(s: Seq<u8>, from: int) -> Option<u32>
    decreases s.len() - from,
    when 0 <= from <= s.len()
{
    if from >= s.len() {
        None
    } else if percent_hit(s, from) {
        Some(digits_val(s.subrange(run_start(s, from), from)) as u32)
    } else {
        first_percent_value(s, from + 1)
    }
}

/// The number before the first `NN%` occurrence in `s`, as the mixer
/// prints levels. A percent sign with no digits before it, or with a
/// number too large for a `u32`, is passed over.
pub fn parse_first_percent_value(s: &str) -> (r: Option<u32>)
    ensures
        r == first_percent_value(s.spec_bytes(), 0),
{
    let bytes = s.as_bytes();
    let n = bytes.len();
    let mut i: usize = 0;
    while i < n
        invariant
            0 <= i <= n,
            n == bytes@.len(),
            bytes@ == s.spec_bytes(),
            first_percent_value(bytes@, 0) == first_percent_value(bytes@, i as int),
        decreases n - i,
    {
        if bytes[i] == 37 && i > 0 {
            // scan back over the digit run
            let mut j: usize = i;
            while j > 0 && 48 <= bytes[j - 1] && bytes[j - 1] <= 57
                invariant
                    0 <= j <= i <= n,
                    n == bytes@.len(),
                    run_start(bytes@, i as int) == run_start(bytes@, j as int),
                decreases j,
            {
                j = j - 1;
            }
            proof {
                lemma_run_start(bytes@, i as int);
                assert(j == run_start(bytes@, i as int));
            }
            if j < i {
                let parsed = parse_u32(bytes, j, i);
                match parsed {
                    Some(v) => {
                        proof {
                            assert(percent_hit(bytes@, i as int));
                        }
                        return Some(v);
                    },
                    None => {
                        proof {
                            assert(!percent_hit(bytes@, i as int));
                        }
                    },
                }
            }
        }
        i = i + 1;
    }
    None
}

// ------------------------------------------------------------------
// `Volume: 0.52 [MUTED]` output
// ------------------------------------------------------------------

/// The percentage a decimal-fraction token denotes, rounded to the
/// nearest hundredth of the unit value and clamped to the ceiling:
/// `0.52` is 52, `1.5` is 150, `2.0` clamps to 150. A token that is not
/// `digits [ . digits ]` with at least one digit denotes nothing.
pub open spec fn fraction_percent(tok: Seq<u8>) -> Option<u32> {
    let d = find_or_end(tok, 46, 0);
    let int_part = tok.subrange(0, d);
    let frac = if d == tok.len() {
        Seq::<u8>::empty()
    } else {
        tok.subrange(d + 1, tok.len() as int)
    };
    if !(all_digits(int_part) && all_digits(frac)) || (int_part.len() == 0 && frac.len() == 0) {
        None
    } else {
        let whole = digits_val(int_part) * 100 + frac_hundredths(frac);
        if whole > crate::MAX_VOLUME_PERCENT {
            Some(crate::MAX_VOLUME_PERCENT)
        } else {
            Some(whole as u32)
        }
    }
}

/// The hundredths a fractional digit string denotes, rounded half up on
/// the third digit.
pub open spec fn frac_hundredths(frac: Seq<u8>) -> nat {
    let d0: nat = if frac.len() >= 1 {
        (frac[0] - 48) as nat
    } else {
        0
    };
    let d1: nat = if frac.len() >= 2 {
        (frac[1] - 48) as nat
    } else {
        0
    };
    let carry: nat = if frac.len() >= 3 && frac[2] >= 53 {
        1
    } else {
        0
    };
    d0 * 10 + d1 + carry
}

/// What one mixer's level line means: the token after the first colon
/// read as a fraction of the unit level, and the mute flag read from a
/// `MUTED` marker anywhere in the line (any letter case).
pub open spec fn wpctl_volume(s: Seq<u8>) -> Option<(u32, bool)> {
    let fields = split_on(s, 58);
    if fields.len() < 2 {
        None
    } else {
        let toks = split_ws(fields[1]);
        if toks.len() == 0 {
            None
        } else {
            match fraction_percent(toks[0]) {
                Some(p) => Some((p, contains_seq(upper_seq(s), lit_muted()))),
                None => None,
            }
        }
    }
}

/// The marker of a muted sink.
pub open spec fn lit_muted() -> Seq<u8> {
    seq![77u8, 85u8, 84u8, 69u8, 68u8]
}

/// Parse one mixer's `Volume: 0.52 [MUTED]` output, as [`wpctl_volume`]
/// describes.
#[verifier::loop_isolation(false)]
pub fn parse_wpctl_volume(output: &str) -> (r: Option<(u32, bool)>)
    ensures
        r == wpctl_volume(output.spec_bytes()),
{
    let bytes = output.as_bytes();
    let ghost sfields = split_on(bytes@, 58);
    let fields = split_on_exec(bytes, 58);
    proof {
        assert(fields@.map_values(|f: Vec<u8>| f@).len() == sfields.len());
    }
    if fields.len() < 2 {
        return None;
    }
    let field1 = &fields[1];
    proof {
        assert(fields@.map_values(|f: Vec<u8>| f@)[1] == sfields[1]);
        assert(field1@ == sfields[1]);
    }
    let ghost stoks = split_ws(sfields[1]);
    let toks = split_ws_exec(byte_slice(field1));
    proof {
        assert(toks@.map_values(|t: Vec<u8>| t@).len() == stoks.len());
    }
    if toks.len() == 0 {
        return None;
    }
    let tok0 = &toks[0];
    let tok = byte_slice(tok0);
    proof {
        assert(toks@.map_values(|t: Vec<u8>| t@)[0] == stoks[0]);
        assert(tok@ == stoks[0]);
    }
    // split the token at the decimal point
    let n = tok.len();
    let d = find_byte(tok, 46, 0);
    let ghost int_part = tok@.subrange(0, d as int);
    let ghost frac = if d == tok@.len() {
        Seq::<u8>::empty()
    } else {
        tok@.subrange(d + 1, tok@.len() as int)
    };
    // check the digit grammar
    let mut k: usize = 0;
    while k < d
        invariant
            0 <= k <= d <= n,
            n == tok@.len(),
            int_part == tok@.subrange(0, d as int),
            forall|q: int| 0 <= q < k ==> is_digit(int_part[q]),
        decreases d - k,
    {
        let b = tok[k];
        if !(48 <= b && b <= 57) {
            proof {
                assert(!is_digit(int_part[k as int]));
                assert(fraction_percent(tok@) is None);
            }
            return None;
        }
        k = k + 1;
    }
    let mut m: usize = if d < n {
        d + 1
    } else {
        n
    };
    let frac_start = m;
    while m < n
        invariant
            frac_start <= m <= n,
            n == tok@.len(),
            d < n ==> frac_start == d + 1,
            d >= n ==> frac_start == n,
            frac == tok@.subrange(frac_start as int, n as int),
            forall|q: int| 0 <= q < m - frac_start ==> is_digit(frac[q]),
        decreases n - m,
    {
        let b = tok[m];
        if !(48 <= b && b <= 57) {
            proof {
                assert(!is_digit(frac[m - frac_start]));
                assert(fraction_percent(tok@) is None);
            }
            return None;
        }
        m = m + 1;
    }
    proof {
        assert(all_digits(int_part));
        assert(all_digits(frac));
    }
    if d == 0 && frac_start == n {
        // a lone dot or the empty token has no digits at all
        proof {
            assert(fraction_percent(tok@) is None);
        }
        return None;
    }
    // the mute marker, read case-insensitively from the whole line
    let upper = upper_vec(bytes);
    let muted_pat: Vec<u8> = vec![77u8, 85u8, 84u8, 69u8, 68u8];
    proof {
        assert(muted_pat@ =~= lit_muted());
    }
    let muted = contains_bytes(byte_slice(&upper), byte_slice(&muted_pat));
    // integer part
    let int_val = match parse_u32(tok, 0, d) {
        Some(v) => v,
        None => {
            // too large for a `u32`: far beyond the ceiling either way
            proof {
                let dv = digits_val(int_part);
                assert(dv * 100 >= dv) by (nonlinear_arith);
            }
            return Some((crate::MAX_VOLUME_PERCENT, muted));
        },
    };
    // fractional hundredths, rounded on the third digit
    let flen = n - frac_start;
    let f0: u32 = if flen >= 1 {
        (tok[frac_start] - 48) as u32
    } else {
        0
    };
    let f1: u32 = if flen >= 2 {
        (tok[frac_start + 1] - 48) as u32
    } else {
        0
    };
    let carry: u32 = if flen >= 3 && tok[frac_start + 2] >= 53 {
        1
    } else {
        0
    };
    let hundredths: u32 = f0 * 10 + f1 + carry;
    proof {
        assert(hundredths == frac_hundredths(frac));
    }
    if int_val > crate::MAX_VOLUME_PERCENT {
        proof {
            let dv = digits_val(int_part);
            assert(dv >= 151 ==> dv * 100 > 150) by (nonlinear_arith);
        }
        return Some((crate::MAX_VOLUME_PERCENT, muted));
    }
    let whole: u32 = int_val * 100 + hundredths;
    if whole > crate::MAX_VOLUME_PERCENT {
        Some((crate::MAX_VOLUME_PERCENT, muted))
    } else {
        Some((whole, muted))
    }
}

/// The level argument handed to a mixer backend: the requested volume,
/// clamped to the ceiling before it reaches any backend, as a percent
/// token. The lower bound is not clamped: zero is a valid level.
pub fn volume_percent_arg(requested: u32) -> (r: String)
    ensures
        r@ == crate::text::dec_chars(
            if requested > crate::MAX_VOLUME_PERCENT {
                crate::MAX_VOLUME_PERCENT as nat
            } else {
                requested as nat
            },
        ) + seq!['%'],
{
    let v = crate::clamp_volume(requested);
    let mut r = crate::text::u32_to_string(v);
    proof {
        reveal_strlit("%");
    }
    r.append("%");
    r
}

// ------------------------------------------------------------------
// Assembling the audio state
// ------------------------------------------------------------------

/// The marker one mixer prints for a muted sink.
pub open spec fn lit_yes() -> Seq<u8> {
    seq![121u8, 101u8, 115u8]
}

/// The level and mute state the mixer outputs denote: the `NN%` mixer
/// wins when its level output is present, the fraction mixer is next,
/// and with neither the defaults hold. Unreadable output of a present
/// mixer also falls back to the defaults.
pub open spec fn audio_level(
    pactl_volume: Option<Seq<u8>>,
    pactl_mute: Option<Seq<u8>>,
    wpctl_out: Option<Seq<u8>>,
) -> (u32, bool) {
    if pactl_volume is Some {
        let v = match first_percent_value(pactl_volume->0, 0) {
            Some(v) => v,
            None => DEFAULT_VOLUME,
        };
        let muted = match pactl_mute {
            Some(m) => contains_seq(m, lit_yes()),
            None => false,
        };
        (v, muted)
    } else if wpctl_out is Some {
        match wpctl_volume(wpctl_out->0) {
            Some(vm) => vm,
            None => (DEFAULT_VOLUME, false),
        }
    } else {
        (DEFAULT_VOLUME, false)
    }
}

/// Assemble the audio state from whichever mixer answered and from the
/// player metadata, as [`audio_level`] describes. The mixer outputs are
/// `None` where the tool itself failed; `track`, `artist` and `playing`
/// are taken over unchanged.
pub fn get_audio_info(
    pactl_volume: Option<String>,
    pactl_mute: Option<String>,
    wpctl_out: Option<String>,
    current_track: Option<String>,
    current_artist: Option<String>,
    is_playing: bool,
) -> (r: AudioInfo)
    ensures
        ({
            let level = audio_level(
                match pactl_volume {
                    Some(s) => Some(bytes_of(s@)),
                    None => None,
                },
                match pactl_mute {
                    Some(s) => Some(bytes_of(s@)),
                    None => None,
                },
                match wpctl_out {
                    Some(s) => Some(bytes_of(s@)),
                    None => None,
                },
            );
            r.volume == level.0 && r.is_muted == level.1
        }),
        r.current_track == current_track,
        r.current_artist == current_artist,
        r.is_playing == is_playing,
{
    let (volume, is_muted): (u32, bool) = match pactl_volume {
        Some(out) => {
            let v = match parse_first_percent_value(out.as_str()) {
                Some(v) => v,
                None => DEFAULT_VOLUME,
            };
            let muted = match pactl_mute {
                Some(m) => {
                    let yes_pat: Vec<u8> = vec![121u8, 101u8, 115u8];
                    proof {
                        assert(yes_pat@ =~= lit_yes());
                    }
                    contains_bytes(m.as_str().as_bytes(), byte_slice(&yes_pat))
                },
                None => false,
            };
            (v, muted)
        },
        None => {
            match wpctl_out {
                Some(out) => {
                    match parse_wpctl_volume(out.as_str()) {
                        Some(vm) => vm,
                        None => (DEFAULT_VOLUME, false),
                    }
                },
                None => (DEFAULT_VOLUME, false),
            }
        },
    };
    AudioInfo { volume, is_muted, current_track, current_artist, is_playing }
}

} // verus!
