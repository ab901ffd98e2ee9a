//! Network status and device listings, read from tool output.
//!
//! The network tools print line-oriented tables; the parsers here read
//! the active connection, the visible networks and the known Bluetooth
//! devices out of that text. Running the tools happens outside the
//! library.

use vstd::prelude::*;
use crate::text::{
    byte_slice, bytes_of, copy_bytes, join_with, join_with_exec, lemma_ascii_literal_bytes,
    lemma_boundary_after_ascii, lemma_join_with_valid, lemma_split_lines_valid,
    lemma_split_on_valid, lemma_split_ws_valid, lemma_valid_subrange, lines_exec, split_lines,
    split_on, split_on_exec, split_ws, split_ws_exec, starts_with, starts_with_exec,
    string_from_utf8,
};
use vstd::string::{StringExecFns, StringSliceAdditionalSpecFns};
use vstd::utf8::{
    valid_utf8, encode_utf8_valid_utf8, is_char_boundary_start_end_of_seq,
};

verus! {

broadcast use vstd::string::group_string_axioms;

/// The connection state handed to the UI.
pub struct NetworkInfo {
    /// Whether a wireless network is active.
    pub is_connected: bool,
    /// The active network's name, when one is.
    pub ssid: Option<String>,
    /// Signal strength; the status tool does not report it.
    pub signal_strength: Option<i32>,
    /// The host's first address, when one is assigned.
    pub ip_address: Option<String>,
}

/// The marker of the active row in the wireless table.
pub open spec fn active_prefix() -> Seq<u8> {
    bytes_of("yes:"@)
}

/// The name on the first active row: the rest of the first line that
/// begins with the active marker.
pub open spec fn active_ssid(lines: Seq<Seq<u8>>, i: int) -> Option<Seq<u8>>
    decreases lines.len() - i,
    when 0 <= i <= lines.len()
{
    if i >= lines.len() {
        None
    } else if starts_with(lines[i], active_prefix()) {
        Some(lines[i].subrange(active_prefix().len() as int, lines[i].len() as int))
    } else {
        active_ssid(lines, i + 1)
    }
}

/// What the two status outputs mean: the active network's name, when a
/// row is marked active, and the first address token; the connection is
/// up exactly when an active row exists.
pub open spec fn network_info_fields(
    wifi_out: Option<Seq<u8>>,
    ip_out: Option<Seq<u8>>,
) -> (Option<Seq<u8>>, Option<Seq<u8>>) {
    let ssid = match wifi_out {
        Some(out) => active_ssid(split_lines(out), 0),
        None => None,
    };
    let ip = match ip_out {
        Some(out) => {
            let toks = split_ws(out);
            if toks.len() > 0 {
                Some(toks[0])
            } else {
                None
            }
        },
        None => None,
    };
    (ssid, ip)
}

/// Read the connection state out of the status outputs, as
/// [`network_info_fields`] describes; an output is `None` where its
/// tool failed.
#[verifier::loop_isolation(false)]
pub fn get_network_info(wifi_out: Option<String>, ip_out: Option<String>) -> (r: NetworkInfo)
    ensures
        ({
            let fields = network_info_fields(
                match wifi_out {
                    Some(s) => Some(bytes_of(s@)),
                    None => None,
                },
                match ip_out {
                    Some(s) => Some(bytes_of(s@)),
                    None => None,
                },
            );
            &&& match r.ssid {
                Some(s) => fields.0 == Some(bytes_of(s@)),
                None => fields.0 is None,
            }
            &&& match r.ip_address {
                Some(s) => fields.1 == Some(bytes_of(s@)),
                None => fields.1 is None,
            }
            &&& r.is_connected == (fields.0 is Some)
            &&& r.signal_strength is None
        }),
{
    let ssid: Option<String> = match wifi_out {
        Some(out) => {
            let ob = out.as_str().as_bytes();
            proof {
                encode_utf8_valid_utf8(out@);
                lemma_split_lines_valid(ob@);
                reveal_strlit("yes:");
                lemma_ascii_literal_bytes("yes:"@, seq![121u8, 101u8, 115u8, 58u8]);
            }
            let lines = lines_exec(ob);
            let ghost sl = split_lines(ob@);
            let marker = String::from_str("yes:");
            let mb = marker.as_str().as_bytes();
            let mut i: usize = 0;
            let mut found: Option<String> = None;
            while i < lines.len()
                invariant
                    0 <= i <= lines@.len(),
                    found is None,
                    active_ssid(sl, 0) == active_ssid(sl, i as int),
                decreases lines@.len() - i,
            {
                let line = byte_slice(&lines[i]);
                proof {
                    assert(sl[i as int] == line@);
                }
                if starts_with_exec(line, mb) {
                    // cut the name off behind the marker
                    let mut v: Vec<u8> = Vec::new();
                    let mut k: usize = mb.len();
                    while k < line.len()
                        invariant
                            mb@.len() <= k <= line@.len(),
                            v@ =~= line@.subrange(mb@.len() as int, k as int),
                        decreases line@.len() - k,
                    {
                        v.push(line[k]);
                        k = k + 1;
                    }
                    proof {
                        assert(valid_utf8(v@)) by {
                            assert(active_prefix() =~= seq![121u8, 101u8, 115u8, 58u8]);
                            assert(line@[active_prefix().len() - 1] == 58) by {
                                assert(line@.subrange(0, active_prefix().len() as int)[3] == 58);
                            }
                            lemma_boundary_after_ascii(line@, active_prefix().len() - 1);
                            is_char_boundary_start_end_of_seq(line@);
                            lemma_valid_subrange(
                                line@,
                                active_prefix().len() as int,
                                line@.len() as int,
                            );
                        }
                        assert(active_ssid(sl, i as int) == Some(v@));
                    }
                    found = Some(string_from_utf8(v));
                    break ;
                }
                i = i + 1;
            }
            proof {
                if i >= lines@.len() && found is None {
                    assert(active_ssid(sl, i as int) is None);
                }
            }
            found
        },
        None => None,
    };
    let ip_address: Option<String> = match ip_out {
        Some(out) => {
            let ob = out.as_str().as_bytes();
            proof {
                encode_utf8_valid_utf8(out@);
                crate::text::lemma_split_ws_valid(ob@);
            }
            let toks = split_ws_exec(ob);
            if toks.len() > 0 {
                proof {
                    assert(toks@.map_values(|t: Vec<u8>| t@)[0] == split_ws(ob@)[0]);
                }
                Some(string_from_utf8(copy_bytes(byte_slice(&toks[0]))))
            } else {
                proof {
                    assert(toks@.map_values(|t: Vec<u8>| t@).len() == split_ws(ob@).len());
                }
                None
            }
        },
        None => None,
    };
    let is_connected = ssid.is_some();
    NetworkInfo { is_connected, ssid, signal_strength: None, ip_address }
}

// ------------------------------------------------------------------
// Network listings
// ------------------------------------------------------------------

/// One visible wireless network, read from one table row.
pub struct WifiNetwork {
    /// The row's name field.
    pub ssid: Option<String>,
    /// The row's signal field.
    pub signal: Option<String>,
    /// The row's security field.
    pub security: Option<String>,
}

/// The byte-level image of a row.
pub struct WifiFields {
    pub ssid: Option<Seq<u8>>,
    pub signal: Option<Seq<u8>>,
    pub security: Option<Seq<u8>>,
}

/// What one nonempty table row means: its colon-separated fields, in
/// order, as far as they are present.
pub open spec fn wifi_row(line: Seq<u8>) -> WifiFields {
    let parts = split_on(line, 58);
    WifiFields {
        ssid: if parts.len() >= 1 {
            Some(parts[0])
        } else {
            None
        },
        signal: if parts.len() >= 2 {
            Some(parts[1])
        } else {
            None
        },
        security: if parts.len() >= 3 {
            Some(parts[2])
        } else {
            None
        },
    }
}

/// The rows of the table: every nonempty line.
pub open spec fn wifi_rows(lines: Seq<Seq<u8>>) -> Seq<WifiFields>
    decreases lines.len(),
{
    if lines.len() == 0 {
        Seq::empty()
    } else if lines[0].len() > 0 {
        seq![wifi_row(lines[0])] + wifi_rows(lines.drop_first())
    } else {
        wifi_rows(lines.drop_first())
    }
}

/// The byte-level image of a parsed network.
pub open spec fn wifi_network_fields(w: WifiNetwork) -> WifiFields {
    WifiFields {
        ssid: match w.ssid {
            Some(s) => Some(bytes_of(s@)),
            None => None,
        },
        signal: match w.signal {
            Some(s) => Some(bytes_of(s@)),
            None => None,
        },
        security: match w.security {
            Some(s) => Some(bytes_of(s@)),
            None => None,
        },
    }
}

/// Parse the visible networks out of the listing output, as
/// [`wifi_rows`] describes.
#[verifier::loop_isolation(false)]
#[verifier::rlimit(100)]
pub fn parse_wifi_networks(output: &str) -> (r: Vec<WifiNetwork>)
    ensures
        r@.map_values(|w: WifiNetwork| wifi_network_fields(w)) == wifi_rows(
            split_lines(output.spec_bytes()),
        ),
{
    let ob = output.as_bytes();
    proof {
        encode_utf8_valid_utf8(output@);
        lemma_split_lines_valid(ob@);
    }
    let lines = lines_exec(ob);
    let ghost sl = split_lines(ob@);
    let mut out: Vec<WifiNetwork> = Vec::new();
    let mut i: usize = 0;
    proof {
        assert(sl.subrange(0, sl.len() as int) =~= sl);
        assert(out@.map_values(|w: WifiNetwork| wifi_network_fields(w)) + wifi_rows(sl)
            =~= wifi_rows(sl));
    }
    while i < lines.len()
        invariant
            0 <= i <= lines@.len(),
            out@.map_values(|w: WifiNetwork| wifi_network_fields(w)) + wifi_rows(
                sl.subrange(i as int, sl.len() as int),
            ) =~= wifi_rows(sl),
        decreases lines@.len() - i,
    {
        let ghost rest = sl.subrange(i as int, sl.len() as int);
        proof {
            assert(rest[0] == sl[i as int]);
            assert(rest.drop_first() =~= sl.subrange(i + 1, sl.len() as int));
        }
        let line = byte_slice(&lines[i]);
        proof {
            assert(sl[i as int] == line@);
        }
        if line.len() > 0 {
            proof {
                lemma_split_on_valid(line@, 58);
            }
            let parts = split_on_exec(line, 58);
            let ghost sp = split_on(line@, 58);
            proof {
                assert(parts@.map_values(|f: Vec<u8>| f@).len() == sp.len());
            }
            let ssid: Option<String> = if parts.len() >= 1 {
                proof {
                    assert(parts@.map_values(|f: Vec<u8>| f@)[0] == sp[0]);
                }
                Some(string_from_utf8(copy_bytes(byte_slice(&parts[0]))))
            } else {
                None
            };
            let signal: Option<String> = if parts.len() >= 2 {
                proof {
                    assert(parts@.map_values(|f: Vec<u8>| f@)[1] == sp[1]);
                }
                Some(string_from_utf8(copy_bytes(byte_slice(&parts[1]))))
            } else {
                None
            };
            let security: Option<String> = if parts.len() >= 3 {
                proof {
                    assert(parts@.map_values(|f: Vec<u8>| f@)[2] == sp[2]);
                }
                Some(string_from_utf8(copy_bytes(byte_slice(&parts[2]))))
            } else {
                None
            };
            let w = WifiNetwork { ssid, signal, security };
            proof {
                assert(wifi_network_fields(w) == wifi_row(line@));
            }
            out.push(w);
        }
        i = i + 1;
        proof {
            assert(out@.map_values(|w: WifiNetwork| wifi_network_fields(w)) + wifi_rows(
                sl.subrange(i as int, sl.len() as int),
            ) =~= wifi_rows(sl));
        }
    }
    proof {
        assert(sl.subrange(i as int, sl.len() as int) =~= Seq::<Seq<u8>>::empty());
        assert(out@.map_values(|w: WifiNetwork| wifi_network_fields(w)) =~= wifi_rows(sl));
    }
    out
}

/// The arguments of a connect request: the password is passed along
/// only when one was given.
pub fn wifi_connect_args(ssid: &str, password: &str) -> (r: Vec<String>)
    ensures
        password@.len() == 0 ==> r@.map_values(|s: String| s@) == seq![
            "dev"@,
            "wifi"@,
            "connect"@,
            ssid@,
        ],
        password@.len() > 0 ==> r@.map_values(|s: String| s@) == seq![
            "dev"@,
            "wifi"@,
            "connect"@,
            ssid@,
            "password"@,
            password@,
        ],
{
    let mut r: Vec<String> = vec![
        String::from_str("dev"),
        String::from_str("wifi"),
        String::from_str("connect"),
        String::from_str(ssid),
    ];
    if !password.is_empty() {
        r.push(String::from_str("password"));
        r.push(String::from_str(password));
        proof {
            assert(r@.map_values(|s: String| s@) =~= seq![
                "dev"@,
                "wifi"@,
                "connect"@,
                ssid@,
                "password"@,
                password@,
            ]);
        }
    } else {
        proof {
            assert(r@.map_values(|s: String| s@) =~= seq!["dev"@, "wifi"@, "connect"@, ssid@]);
        }
    }
    r
}

// ------------------------------------------------------------------
// Bluetooth listings
// ------------------------------------------------------------------

/// One known Bluetooth device.
pub struct BluetoothDevice {
    /// Its hardware address: the second token of its row.
    pub mac: String,
    /// Its display name: the remaining tokens, joined by single spaces.
    pub name: String,
}

/// The byte-level image of a device row.
pub struct BluetoothFields {
    pub mac: Seq<u8>,
    pub name: Seq<u8>,
}

/// The devices of the listing: every line of at least three
/// whitespace-separated tokens, the second read as the address and the
/// rest as the name.
pub open spec fn bluetooth_rows(lines: Seq<Seq<u8>>) -> Seq<BluetoothFields>
    decreases lines.len(),
{
    if lines.len() == 0 {
        Seq::empty()
    } else {
        let toks = split_ws(lines[0]);
        if toks.len() >= 3 {
            seq![
                BluetoothFields {
                    mac: toks[1],
                    name: join_with(toks.subrange(2, toks.len() as int), bytes_of(" "@)),
                },
            ] + bluetooth_rows(lines.drop_first())
        } else {
            bluetooth_rows(lines.drop_first())
        }
    }
}

/// The byte-level image of a parsed device.
pub open spec fn bluetooth_device_fields(d: BluetoothDevice) -> BluetoothFields {
    BluetoothFields { mac: bytes_of(d.mac@), name: bytes_of(d.name@) }
}

/// Parse the known devices out of the listing output, as
/// [`bluetooth_rows`] describes.
#[verifier::loop_isolation(false)]
pub fn parse_bluetooth_devices(output: &str) -> (r: Vec<BluetoothDevice>)
    ensures
        r@.map_values(|d: BluetoothDevice| bluetooth_device_fields(d)) == bluetooth_rows(
            split_lines(output.spec_bytes()),
        ),
{
    let ob = output.as_bytes();
    proof {
        encode_utf8_valid_utf8(output@);
        lemma_split_lines_valid(ob@);
        reveal_strlit(" ");
        lemma_ascii_literal_bytes(" "@, seq![32u8]);
        encode_utf8_valid_utf8(" "@);
    }
    let space = String::from_str(" ");
    let sb = space.as_str().as_bytes();
    let lines = lines_exec(ob);
    let ghost sl = split_lines(ob@);
    let mut out: Vec<BluetoothDevice> = Vec::new();
    let mut i: usize = 0;
    proof {
        assert(sl.subrange(0, sl.len() as int) =~= sl);
        assert(out@.map_values(|d: BluetoothDevice| bluetooth_device_fields(d)) + bluetooth_rows(
            sl,
        ) =~= bluetooth_rows(sl));
    }
    while i < lines.len()
        invariant
            0 <= i <= lines@.len(),
            out@.map_values(|d: BluetoothDevice| bluetooth_device_fields(d)) + bluetooth_rows(
                sl.subrange(i as int, sl.len() as int),
            ) =~= bluetooth_rows(sl),
        decreases lines@.len() - i,
    {
        let ghost rest = sl.subrange(i as int, sl.len() as int);
        proof {
            assert(rest[0] == sl[i as int]);
            assert(rest.drop_first() =~= sl.subrange(i + 1, sl.len() as int));
        }
        let line = byte_slice(&lines[i]);
        proof {
            assert(sl[i as int] == line@);
            lemma_split_ws_valid(line@);
        }
        let toks = split_ws_exec(line);
        let ghost st = split_ws(line@);
        proof {
            assert(toks@.map_values(|t: Vec<u8>| t@).len() == st.len());
        }
        if toks.len() >= 3 {
            proof {
                assert(toks@.map_values(|t: Vec<u8>| t@)[1] == st[1]);
            }
            let mac = string_from_utf8(copy_bytes(byte_slice(&toks[1])));
            // the name: the remaining tokens, joined
            let mut name_toks: Vec<Vec<u8>> = Vec::new();
            let mut k: usize = 2;
            while k < toks.len()
                invariant
                    2 <= k <= toks@.len(),
                    toks@.map_values(|t: Vec<u8>| t@) == st,
                    name_toks@.map_values(|t: Vec<u8>| t@) =~= st.subrange(2, k as int),
                decreases toks@.len() - k,
            {
                proof {
                    assert(toks@.map_values(|t: Vec<u8>| t@)[k as int] == st[k as int]);
                }
                name_toks.push(copy_bytes(byte_slice(&toks[k])));
                k = k + 1;
                proof {
                    assert(name_toks@.map_values(|t: Vec<u8>| t@) =~= st.subrange(2, k as int));
                }
            }
            proof {
                assert(st.subrange(2, st.len() as int) =~= name_toks@.map_values(
                    |t: Vec<u8>| t@,
                ));
            }
            let joined = join_with_exec(&name_toks, sb);
            proof {
                lemma_join_with_valid(name_toks@.map_values(|t: Vec<u8>| t@), sb@);
            }
            let name = string_from_utf8(joined);
            let d = BluetoothDevice { mac, name };
            proof {
                assert(bluetooth_device_fields(d) == BluetoothFields {
                    mac: st[1],
                    name: join_with(st.subrange(2, st.len() as int), bytes_of(" "@)),
                });
            }
            out.push(d);
        }
        i = i + 1;
        proof {
            assert(out@.map_values(|d: BluetoothDevice| bluetooth_device_fields(d))
                + bluetooth_rows(sl.subrange(i as int, sl.len() as int)) =~= bluetooth_rows(sl));
        }
    }
    proof {
        assert(sl.subrange(i as int, sl.len() as int) =~= Seq::<Seq<u8>>::empty());
        assert(out@.map_values(|d: BluetoothDevice| bluetooth_device_fields(d))
            =~= bluetooth_rows(sl));
    }
    out
}

} // verus!
