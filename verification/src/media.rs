//! Media-player metadata and control commands.
//!
//! A structured player-control protocol is preferred: first a combined
//! any-player metadata query; failing that, a scan over the enumerated
//! players that takes the first one found in a `Playing` state. Running
//! the tools happens outside the library; this module decides what the
//! captured outputs mean.

use vstd::prelude::*;
use crate::text::{
    byte_slice, bytes_of, bytes_eq, lemma_ascii_literal_bytes, split_on_seq, split_on_seq_exec, string_from_utf8, trim_bounds,
    trim_spec, lemma_valid_subrange, lemma_ascii_is_boundary, lemma_boundary_after_ascii,
};
use vstd::string::StringSliceAdditionalSpecFns;
use vstd::utf8::{
    valid_utf8, encode_utf8_valid_utf8, is_char_boundary_start_end_of_seq, is_char_boundary,
    encode_scalar, has_width_1_encoding, leading_byte_width_1,
};

verus! {

broadcast use vstd::string::group_string_axioms;

/// What the players report: the current track and whether one plays.
pub struct MediaState {
    /// Title of the current track, when the player reports one.
    pub title: Option<String>,
    /// Artist of the current track, when the player reports one.
    pub artist: Option<String>,
    /// Whether the player reports a `Playing` state.
    pub playing: bool,
}

/// One enumerated player and what its probes captured: its reported
/// state, and its metadata output when one was asked for.
pub struct PlayerProbe {
    /// The player's name, as enumerated.
    pub name: String,
    /// Captured output of its state query, if the query succeeded.
    pub status: Option<String>,
    /// Captured output of its metadata query, if the query succeeded.
    pub metadata: Option<String>,
}

/// The field separator of the metadata format.
pub open spec fn lit_sep() -> Seq<u8> {
    seq![124u8, 124u8, 124u8]
}

/// The state a playing player reports.
pub open spec fn lit_playing() -> Seq<u8> {
    seq![80u8, 108u8, 97u8, 121u8, 105u8, 110u8, 103u8]
}

/// The mathematical shape of a parsed metadata line.
pub struct MediaFields {
    pub title: Option<Seq<u8>>,
    pub artist: Option<Seq<u8>>,
    pub playing: bool,
}

/// What a metadata line means: the trimmed output split on the field
/// separator gives title, artist and state; an empty or missing field
/// is no field, and playing means the third field is exactly `Playing`.
pub open spec fn media_fields(out: Seq<u8>) -> MediaFields {
    let parts = split_on_seq(trim_spec(out), lit_sep());
    MediaFields {
        title: if parts.len() >= 1 && parts[0].len() > 0 {
            Some(parts[0])
        } else {
            None
        },
        artist: if parts.len() >= 2 && parts[1].len() > 0 {
            Some(parts[1])
        } else {
            None
        },
        playing: parts.len() >= 3 && parts[2] == lit_playing(),
    }
}

/// The byte-level image of a parsed state.
pub open spec fn media_state_fields(m: MediaState) -> MediaFields {
    MediaFields {
        title: match m.title {
            Some(t) => Some(bytes_of(t@)),
            None => None,
        },
        artist: match m.artist {
            Some(a) => Some(bytes_of(a@)),
            None => None,
        },
        playing: m.playing,
    }
}

/// Parse one metadata line, as [`media_fields`] describes.
#[verifier::loop_isolation(false)]
pub fn parse_player_metadata(output: &str) -> (r: MediaState)
    ensures
        media_state_fields(r) == media_fields(output.spec_bytes()),
{
    let bytes = output.as_bytes();
    proof {
        encode_utf8_valid_utf8(output@);
    }
    let (lo, hi) = trim_bounds(bytes);
    let mut trimmed: Vec<u8> = Vec::new();
    let mut k: usize = lo;
    while k < hi
        invariant
            lo <= k <= hi <= bytes@.len(),
            trimmed@ =~= bytes@.subrange(lo as int, k as int),
        decreases hi - k,
    {
        trimmed.push(bytes[k]);
        k = k + 1;
    }
    proof {
        assert(trimmed@ == trim_spec(bytes@));
        assert(valid_utf8(trimmed@)) by {
            is_char_boundary_start_end_of_seq(bytes@);
            if lo < hi {
                crate::text::lemma_skip_ws(bytes@, 0);
                crate::text::lemma_rskip_ws(bytes@, bytes@.len() as int);
                assert(is_char_boundary(bytes@, lo as int)) by {
                    if (lo as int) < bytes@.len() {
                        if lo > 0 {
                            lemma_boundary_after_ascii(bytes@, lo - 1);
                        }
                    }
                }
                assert(is_char_boundary(bytes@, hi as int)) by {
                    if (hi as int) < bytes@.len() {
                        lemma_ascii_is_boundary(bytes@, hi as int);
                    }
                }
                lemma_valid_subrange(bytes@, lo as int, hi as int);
            } else {
                assert(trimmed@ =~= Seq::<u8>::empty());
            }
        }
    }
    let sep: Vec<u8> = vec![124u8, 124u8, 124u8];
    proof {
        assert(sep@ =~= lit_sep());
    }
    let parts = split_on_seq_exec(byte_slice(&trimmed), byte_slice(&sep));
    let ghost sparts = split_on_seq(trimmed@, lit_sep());
    proof {
        assert(parts@.map_values(|f: Vec<u8>| f@).len() == sparts.len());
        crate::text::lemma_split_on_seq_parts_valid(trimmed@, lit_sep());
    }
    let title: Option<String> = if parts.len() >= 1 && parts[0].len() > 0 {
        proof {
            assert(parts@.map_values(|f: Vec<u8>| f@)[0] == sparts[0]);
        }
        let p = crate::text::copy_bytes(byte_slice(&parts[0]));
        Some(string_from_utf8(p))
    } else {
        None
    };
    let artist: Option<String> = if parts.len() >= 2 && parts[1].len() > 0 {
        proof {
            assert(parts@.map_values(|f: Vec<u8>| f@)[1] == sparts[1]);
        }
        let p = crate::text::copy_bytes(byte_slice(&parts[1]));
        Some(string_from_utf8(p))
    } else {
        None
    };
    let playing_pat: Vec<u8> = vec![80u8, 108u8, 97u8, 121u8, 105u8, 110u8, 103u8];
    proof {
        assert(playing_pat@ =~= lit_playing());
        if parts@.len() >= 3 {
            assert(parts@.map_values(|f: Vec<u8>| f@)[2] == sparts[2]);
        }
    }
    let playing = parts.len() >= 3 && bytes_eq(byte_slice(&parts[2]), byte_slice(&playing_pat));
    MediaState { title, artist, playing }
}

/// A player's probes show it playing and answering: its state query
/// succeeded with exactly `Playing` (after trimming) and its metadata
/// query succeeded too.
pub open spec fn probe_playing(p: PlayerProbe) -> bool {
    &&& p.status matches Some(st) && trim_spec(bytes_of(st@)) == lit_playing()
    &&& p.metadata is Some
}

/// The metadata output of the first playing, answering player.
pub open spec fn first_playing_metadata(probes: Seq<PlayerProbe>) -> Option<Seq<char>>
    decreases probes.len(),
{
    if probes.len() == 0 {
        None
    } else if probe_playing(probes[0]) {
        Some((probes[0].metadata->0)@)
    } else {
        first_playing_metadata(probes.drop_first())
    }
}

/// The metadata output of the first player that answered at all.
pub open spec fn first_answering_metadata(probes: Seq<PlayerProbe>) -> Option<Seq<char>>
    decreases probes.len(),
{
    if probes.len() == 0 {
        None
    } else if probes[0].metadata is Some {
        Some((probes[0].metadata->0)@)
    } else {
        first_answering_metadata(probes.drop_first())
    }
}

/// What the player probes mean. The combined any-player query wins when
/// it succeeded; otherwise the first enumerated player found playing
/// and answering supplies the metadata; with no player playing, the
/// first player that answered at all is used; with none, nothing plays.
pub open spec fn player_metadata_spec(
    any_metadata: Option<Seq<char>>,
    probes: Seq<PlayerProbe>,
) -> MediaFields {
    match any_metadata {
        Some(out) => media_fields(bytes_of(out)),
        None => match first_playing_metadata(probes) {
            Some(out) => media_fields(bytes_of(out)),
            None => match first_answering_metadata(probes) {
                Some(out) => media_fields(bytes_of(out)),
                None => MediaFields { title: None, artist: None, playing: false },
            },
        },
    }
}

/// Decide the media state from the captured player probes, as
/// [`player_metadata_spec`] describes. `any_metadata` is the combined
/// any-player query's output when that query succeeded; `probes` are
/// the enumerated players in order, each with its captured outputs.
#[verifier::loop_isolation(false)]
pub fn get_player_metadata(any_metadata: Option<String>, probes: &Vec<PlayerProbe>) -> (r:
    MediaState)
    ensures
        media_state_fields(r) == player_metadata_spec(
            match any_metadata {
                Some(s) => Some(s@),
                None => None,
            },
            probes@,
        ),
{
    match any_metadata {
        Some(out) => parse_player_metadata(out.as_str()),
        None => {
            let playing_pat: Vec<u8> = vec![80u8, 108u8, 97u8, 121u8, 105u8, 110u8, 103u8];
            proof {
                assert(playing_pat@ =~= lit_playing());
            }
            let mut i: usize = 0;
            proof {
                assert(probes@.subrange(0, probes@.len() as int) =~= probes@);
            }
            while i < probes.len()
                invariant
                    0 <= i <= probes@.len(),
                    playing_pat@ == lit_playing(),
                    first_playing_metadata(probes@) == first_playing_metadata(
                        probes@.subrange(i as int, probes@.len() as int),
                    ),
                decreases probes@.len() - i,
            {
                let ghost rest = probes@.subrange(i as int, probes@.len() as int);
                let p = &probes[i];
                let mut is_playing = false;
                match &p.status {
                    Some(st) => {
                        let sb = st.as_str().as_bytes();
                        let (lo, hi) = trim_bounds(sb);
                        let mut t: Vec<u8> = Vec::new();
                        let mut k: usize = lo;
                        while k < hi
                            invariant
                                lo <= k <= hi <= sb@.len(),
                                t@ =~= sb@.subrange(lo as int, k as int),
                            decreases hi - k,
                        {
                            t.push(sb[k]);
                            k = k + 1;
                        }
                        proof {
                            assert(t@ == trim_spec(sb@));
                        }
                        is_playing = bytes_eq(byte_slice(&t), byte_slice(&playing_pat));
                    },
                    None => {},
                }
                if is_playing {
                    match &p.metadata {
                        Some(meta) => {
                            proof {
                                assert(rest[0] == probes@[i as int]);
                                assert(probe_playing(probes@[i as int]));
                                assert(first_playing_metadata(rest) == Some(meta@));
                            }
                            return parse_player_metadata(meta.as_str());
                        },
                        None => {},
                    }
                }
                proof {
                    assert(rest[0] == probes@[i as int]);
                    assert(!probe_playing(probes@[i as int]));
                    assert(rest.drop_first() =~= probes@.subrange(
                        i + 1,
                        probes@.len() as int,
                    ));
                }
                i = i + 1;
            }
            proof {
                assert(first_playing_metadata(probes@.subrange(i as int, probes@.len() as int))
                    is None);
            }
            // no player is playing: fall back to the first that answered
            let mut j: usize = 0;
            while j < probes.len()
                invariant
                    0 <= j <= probes@.len(),
                    first_playing_metadata(probes@) is None,
                    first_answering_metadata(probes@) == first_answering_metadata(
                        probes@.subrange(j as int, probes@.len() as int),
                    ),
                decreases probes@.len() - j,
            {
                let ghost rest = probes@.subrange(j as int, probes@.len() as int);
                proof {
                    assert(rest[0] == probes@[j as int]);
                    assert(rest.drop_first() =~= probes@.subrange(
                        j + 1,
                        probes@.len() as int,
                    ));
                }
                let p = &probes[j];
                match &p.metadata {
                    Some(meta) => {
                        proof {
                            assert(first_answering_metadata(rest) == Some(meta@));
                        }
                        return parse_player_metadata(meta.as_str());
                    },
                    None => {},
                }
                j = j + 1;
            }
            proof {
                assert(first_answering_metadata(
                    probes@.subrange(j as int, probes@.len() as int),
                ) is None);
            }
            MediaState { title: None, artist: None, playing: false }
        },
    }
}

/// The line-oriented control word for a UI media action: `play` and
/// `pause` both toggle, `next` and `previous` pass through; anything
/// else is no action.
pub open spec fn media_command_spec(action: Seq<u8>) -> Option<Seq<u8>> {
    if action == lit_play() || action == lit_pause() {
        Some(lit_play_pause())
    } else if action == lit_next() {
        Some(lit_next())
    } else if action == lit_previous() {
        Some(lit_previous())
    } else {
        None
    }
}

pub open spec fn lit_play() -> Seq<u8> {
    seq![112u8, 108u8, 97u8, 121u8]
}

pub open spec fn lit_pause() -> Seq<u8> {
    seq![112u8, 97u8, 117u8, 115u8, 101u8]
}

pub open spec fn lit_play_pause() -> Seq<u8> {
    seq![112u8, 108u8, 97u8, 121u8, 45u8, 112u8, 97u8, 117u8, 115u8, 101u8]
}

pub open spec fn lit_next() -> Seq<u8> {
    seq![110u8, 101u8, 120u8, 116u8]
}

pub open spec fn lit_previous() -> Seq<u8> {
    seq![112u8, 114u8, 101u8, 118u8, 105u8, 111u8, 117u8, 115u8]
}

/// Map a UI media action to the control word handed to the player tool,
/// as [`media_command_spec`] describes; an unknown action is refused.
pub fn media_control_command(action: &str) -> (r: Result<&'static str, String>)
    ensures
        ({
            match r {
                Ok(c) => media_command_spec(action.spec_bytes()) == Some(c.spec_bytes()),
                Err(e) => media_command_spec(action.spec_bytes()) is None && e@
                    == "Unknown action"@,
            }
        }),
{
    proof {
        reveal_strlit("play");
        reveal_strlit("pause");
        reveal_strlit("play-pause");
        reveal_strlit("next");
        reveal_strlit("previous");
        reveal_strlit("Unknown action");
    }
    let ab = action.as_bytes();
    let play: Vec<u8> = vec![112u8, 108u8, 97u8, 121u8];
    let pause: Vec<u8> = vec![112u8, 97u8, 117u8, 115u8, 101u8];
    let next: Vec<u8> = vec![110u8, 101u8, 120u8, 116u8];
    let previous: Vec<u8> = vec![112u8, 114u8, 101u8, 118u8, 105u8, 111u8, 117u8, 115u8];
    proof {
        assert(play@ =~= lit_play());
        assert(pause@ =~= lit_pause());
        assert(next@ =~= lit_next());
        assert(previous@ =~= lit_previous());
        assert(("play-pause")@ =~= lit_play_pause().map_values(|b: u8| b as char));
        lemma_ascii_literal_bytes("play-pause"@, lit_play_pause());
        lemma_ascii_literal_bytes("next"@, lit_next());
        lemma_ascii_literal_bytes("previous"@, lit_previous());
    }
    if bytes_eq(ab, byte_slice(&play)) || bytes_eq(ab, byte_slice(&pause)) {
        Ok("play-pause")
    } else if bytes_eq(ab, byte_slice(&next)) {
        Ok("next")
    } else if bytes_eq(ab, byte_slice(&previous)) {
        Ok("previous")
    } else {
        Err(String::from_str("Unknown action"))
    }
}

} // verus!
