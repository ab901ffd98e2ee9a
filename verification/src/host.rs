//! Host-level concerns: the settings path, the user profile, screen
//! brightness, wallpaper assignment and power actions.
//!
//! Whatever must ask the operating system — the configuration
//! directory, the user name — goes through a narrow trusted call; every
//! decision built on the answers is verified. Actions on the host are
//! returned as plans of tool invocations for the caller to run.

use vstd::prelude::*;
use crate::text::{
    all_digits, byte_slice, bytes_of, copy_bytes, digits_val, is_digit, lemma_boundary_after_ascii,
    lemma_encode_concat, lemma_split_lines_valid, lemma_trim_valid, lemma_valid_subrange,
    lines_exec, parse_u32, split_lines, starts_with, starts_with_exec, string_from_utf8,
    trim_copy, trim_spec,
};
use vstd::string::{StringExecFns, StringSliceAdditionalSpecFns};
use vstd::utf8::{valid_utf8, encode_utf8_valid_utf8, is_char_boundary_start_end_of_seq};

verus! {

broadcast use vstd::string::group_string_axioms;

// ------------------------------------------------------------------
// The settings path
// ------------------------------------------------------------------

/// Relies on `dirs::config_dir`: the user's configuration directory,
/// when the platform reports one. The answer depends on the
/// environment, so nothing is promised of it.
#[verifier::external_body]
fn os_config_dir() -> Option<String> {
    dirs::config_dir().map(|p| p.to_string_lossy().into_owned())
}

/// Relies on `dirs::home_dir`: the user's home directory, when the
/// platform reports one. The answer depends on the environment, so
/// nothing is promised of it.
#[verifier::external_body]
fn os_home_dir() -> Option<String> {
    dirs::home_dir().map(|p| p.to_string_lossy().into_owned())
}

/// `s` ends with `p`.
pub open spec fn ends_in(s: Seq<char>, p: Seq<char>) -> bool {
    p.len() <= s.len() && s.subrange(s.len() - p.len(), s.len() as int) == p
}

/// The shell's configuration directory: the platform's configuration
/// directory when it reports one, else a dot-directory under the home
/// directory, else a dot-directory beside the process; in each case the
/// shell's own name ends the path.
pub fn get_config_dir() -> (r: String)
    ensures
        ends_in(r@, "sis-crystal"@),
{
    match os_config_dir() {
        Some(dir) => {
            let mut r = dir;
            r.append("/sis-crystal");
            proof {
                reveal_strlit("/sis-crystal");
                reveal_strlit("sis-crystal");
                assert(r@.subrange(r@.len() - 11, r@.len() as int) =~= "sis-crystal"@);
            }
            r
        },
        None => {
            match os_home_dir() {
                Some(home) => {
                    let mut r = home;
                    r.append("/.config/sis-crystal");
                    proof {
                        reveal_strlit("/.config/sis-crystal");
                        reveal_strlit("sis-crystal");
                        assert(r@.subrange(r@.len() - 11, r@.len() as int) =~= "sis-crystal"@);
                    }
                    r
                },
                None => {
                    let r = String::from_str(".sis-crystal");
                    proof {
                        reveal_strlit(".sis-crystal");
                        reveal_strlit("sis-crystal");
                        assert(r@.subrange(r@.len() - 11, r@.len() as int) =~= "sis-crystal"@);
                    }
                    r
                },
            }
        },
    }
}

/// The settings file: one JSON document inside the configuration
/// directory.
pub fn get_settings_path() -> (r: String)
    ensures
        ends_in(r@, "/settings.json"@),
{
    let mut r = get_config_dir();
    r.append("/settings.json");
    proof {
        reveal_strlit("/settings.json");
        assert(r@.subrange(r@.len() - 14, r@.len() as int) =~= "/settings.json"@);
    }
    r
}

// ------------------------------------------------------------------
// The user profile
// ------------------------------------------------------------------

/// The user as the shell shows it.
pub struct UserProfile {
    /// The account name.
    pub username: String,
    /// The avatar image found for it, when one exists.
    pub avatar_path: Option<String>,
}

/// Relies on `whoami::username`: the current account's name, when the
/// platform reports one. The answer depends on the environment, so
/// nothing is promised of it.
#[verifier::external_body]
fn os_username() -> Option<String> {
    whoami::username().ok()
}

/// The profile of the current user: the account name the platform
/// reports (empty when it reports none), with the avatar the caller
/// found on disk.
pub fn get_user_profile(avatar_path: Option<String>) -> (r: UserProfile)
    ensures
        r.avatar_path == avatar_path,
{
    let username = match os_username() {
        Some(u) => u,
        None => String::new(),
    };
    UserProfile { username, avatar_path }
}

/// The places an avatar image may live, in search order: two well-known
/// files under the home directory, then the account service's icon for
/// the user.
pub fn avatar_candidates(home: Option<&str>, username: &str) -> (r: Vec<String>)
    ensures
        match home {
            Some(h) => r@.map_values(|s: String| s@) == seq![
                h@ + "/.face"@,
                h@ + "/.face.icon"@,
                "/var/lib/AccountsService/icons/"@ + username@,
            ],
            None => r@.map_values(|s: String| s@) == seq![
                "/var/lib/AccountsService/icons/"@ + username@,
            ],
        },
{
    let mut r: Vec<String> = Vec::new();
    match home {
        Some(h) => {
            let mut a = String::from_str(h);
            a.append("/.face");
            r.push(a);
            let mut b = String::from_str(h);
            b.append("/.face.icon");
            r.push(b);
            let mut c = String::from_str("/var/lib/AccountsService/icons/");
            c.append(username);
            r.push(c);
            proof {
                assert(r@.map_values(|s: String| s@) =~= seq![
                    h@ + "/.face"@,
                    h@ + "/.face.icon"@,
                    "/var/lib/AccountsService/icons/"@ + username@,
                ]);
            }
        },
        None => {
            let mut c = String::from_str("/var/lib/AccountsService/icons/");
            c.append(username);
            r.push(c);
            proof {
                assert(r@.map_values(|s: String| s@) =~= seq![
                    "/var/lib/AccountsService/icons/"@ + username@,
                ]);
            }
        },
    }
    r
}

/// The icon path in an account-service record: the trimmed rest of the
/// first line that begins with the icon key.
pub open spec fn record_icon(lines: Seq<Seq<u8>>, i: int) -> Option<Seq<u8>>
    decreases lines.len() - i,
    when 0 <= i <= lines.len()
{
    if i >= lines.len() {
        None
    } else if starts_with(lines[i], icon_key()) {
        Some(trim_spec(lines[i].subrange(icon_key().len() as int, lines[i].len() as int)))
    } else {
        record_icon(lines, i + 1)
    }
}

/// The key that names the avatar in an account-service record.
pub open spec fn icon_key() -> Seq<u8> {
    bytes_of("Icon="@)
}

/// Read the avatar path out of an account-service record, as
/// [`record_icon`] describes.
#[verifier::loop_isolation(false)]
pub fn parse_icon_attr(contents: &str) -> (r: Option<String>)
    ensures
        match r {
            Some(p) => record_icon(split_lines(contents.spec_bytes()), 0) == Some(bytes_of(p@)),
            None => record_icon(split_lines(contents.spec_bytes()), 0) is None,
        },
{
    let cb = contents.as_bytes();
    proof {
        encode_utf8_valid_utf8(contents@);
        lemma_split_lines_valid(cb@);
        reveal_strlit("Icon=");
        crate::text::lemma_ascii_literal_bytes(
            "Icon="@,
            seq![73u8, 99u8, 111u8, 110u8, 61u8],
        );
    }
    let lines = lines_exec(cb);
    let ghost sl = split_lines(cb@);
    let key = String::from_str("Icon=");
    let kb = key.as_str().as_bytes();
    let mut i: usize = 0;
    while i < lines.len()
        invariant
            0 <= i <= lines@.len(),
            record_icon(sl, 0) == record_icon(sl, i as int),
        decreases lines@.len() - i,
    {
        let line = byte_slice(&lines[i]);
        proof {
            assert(sl[i as int] == line@);
        }
        if starts_with_exec(line, kb) {
            let mut rest: Vec<u8> = Vec::new();
            let mut k: usize = kb.len();
            while k < line.len()
                invariant
                    kb@.len() <= k <= line@.len(),
                    rest@ =~= line@.subrange(kb@.len() as int, k as int),
                decreases line@.len() - k,
            {
                rest.push(line[k]);
                k = k + 1;
            }
            proof {
                assert(valid_utf8(rest@)) by {
                    assert(icon_key() =~= seq![73u8, 99u8, 111u8, 110u8, 61u8]);
                    assert(line@[icon_key().len() - 1] == 61) by {
                        assert(line@.subrange(0, icon_key().len() as int)[4] == 61);
                    }
                    lemma_boundary_after_ascii(line@, icon_key().len() - 1);
                    is_char_boundary_start_end_of_seq(line@);
                    lemma_valid_subrange(line@, icon_key().len() as int, line@.len() as int);
                }
                lemma_trim_valid(rest@);
            }
            let trimmed = trim_copy(byte_slice(&rest));
            proof {
                assert(record_icon(sl, i as int) == Some(trimmed@));
            }
            return Some(string_from_utf8(trimmed));
        }
        i = i + 1;
    }
    None
}

// ------------------------------------------------------------------
// Brightness
// ------------------------------------------------------------------

/// A trimmed decimal reading of a tool's numeric output.
pub open spec fn trimmed_number(out: Seq<u8>) -> Option<nat> {
    let t = trim_spec(out);
    if t.len() > 0 && all_digits(t) && digits_val(t) <= u32::MAX {
        Some(digits_val(t))
    } else {
        None
    }
}

/// The brightness used when the tool's answers cannot be read.
pub const DEFAULT_BRIGHTNESS: u32 = 100;

/// The brightness the two tool outputs denote: the current raw level
/// over the maximum, as a percentage rounded down; unreadable numbers
/// or a zero maximum fall back to a safe default, as read-only
/// telemetry does.
pub open spec fn brightness_of(current: Option<Seq<u8>>, max_out: Option<Seq<u8>>) -> u32 {
    match (current, max_out) {
        (Some(c), Some(m)) => match (trimmed_number(c), trimmed_number(m)) {
            (Some(cv), Some(mv)) => if mv > 0 {
                if cv * 100 / mv > u32::MAX {
                    u32::MAX
                } else {
                    (cv * 100 / mv) as u32
                }
            } else {
                DEFAULT_BRIGHTNESS
            },
            _ => DEFAULT_BRIGHTNESS,
        },
        _ => DEFAULT_BRIGHTNESS,
    }
}

/// Read the brightness percentage out of the tool outputs, as
/// [`brightness_of`] describes.
#[verifier::loop_isolation(false)]
pub fn get_brightness(current: Option<String>, max_out: Option<String>) -> (r: u32)
    ensures
        r == brightness_of(
            match current {
                Some(s) => Some(bytes_of(s@)),
                None => None,
            },
            match max_out {
                Some(s) => Some(bytes_of(s@)),
                None => None,
            },
        ),
{
    let c = match current {
        Some(s) => {
            match read_trimmed_number(s.as_str()) {
                Some(v) => v,
                None => {
                    return DEFAULT_BRIGHTNESS;
                },
            }
        },
        None => {
            return DEFAULT_BRIGHTNESS;
        },
    };
    let m = match max_out {
        Some(s) => {
            match read_trimmed_number(s.as_str()) {
                Some(v) => v,
                None => {
                    return DEFAULT_BRIGHTNESS;
                },
            }
        },
        None => {
            return DEFAULT_BRIGHTNESS;
        },
    };
    if m == 0 {
        return DEFAULT_BRIGHTNESS;
    }
    let scaled: u64 = (c as u64) * 100 / (m as u64);
    if scaled > 0xffff_ffff {
        u32::MAX
    } else {
        scaled as u32
    }
}

/// Read a tool's numeric output, as [`trimmed_number`] describes.
#[verifier::loop_isolation(false)]
fn read_trimmed_number(out: &str) -> (r: Option<u32>)
    ensures
        match r {
            Some(v) => trimmed_number(out.spec_bytes()) == Some(v as nat),
            None => trimmed_number(out.spec_bytes()) is None,
        },
{
    let ob = out.as_bytes();
    let t = trim_copy(ob);
    let ts = byte_slice(&t);
    if ts.len() == 0 {
        return None;
    }
    let mut k: usize = 0;
    while k < ts.len()
        invariant
            0 <= k <= ts@.len(),
            forall|j: int| 0 <= j < k ==> is_digit(ts@[j]),
        decreases ts@.len() - k,
    {
        let b = ts[k];
        if !(48 <= b && b <= 57) {
            proof {
                assert(!is_digit(ts@[k as int]));
            }
            return None;
        }
        k = k + 1;
    }
    proof {
        assert(all_digits(t@));
        assert(ts@.subrange(0, ts@.len() as int) =~= ts@);
    }
    parse_u32(ts, 0, ts.len())
}

/// The level argument of a brightness request: capped at a full
/// percent before it reaches the tool.
pub fn brightness_percent_arg(requested: u32) -> (r: String)
    ensures
        r@ == crate::text::dec_chars(
            if requested > 100 {
                100 as nat
            } else {
                requested as nat
            },
        ) + seq!['%'],
{
    let v = if requested > 100 {
        100
    } else {
        requested
    };
    let mut r = crate::text::u32_to_string(v);
    proof {
        reveal_strlit("%");
    }
    r.append("%");
    r
}

// ------------------------------------------------------------------
// Action plans
// ------------------------------------------------------------------

/// One tool invocation of a plan. A step that must succeed fails the
/// whole action when it fails; the failure of a best-effort step is
/// swallowed.
pub struct PlanStep {
    /// The program to run.
    pub program: String,
    /// Its arguments.
    pub args: Vec<String>,
    /// Whether the action fails when this step fails.
    pub must_succeed: bool,
}

/// The view of one step.
pub struct StepView {
    pub program: Seq<char>,
    pub args: Seq<Seq<char>>,
    pub must_succeed: bool,
}

impl View for PlanStep {
    type V = StepView;

    open spec fn view(&self) -> StepView {
        StepView {
            program: self.program@,
            args: self.args@.map_values(|a: String| a@),
            must_succeed: self.must_succeed,
        }
    }
}

fn step(program: &str, args: Vec<String>, must_succeed: bool) -> (r: PlanStep)
    ensures
        r@.program == program@,
        r@.args == args@.map_values(|a: String| a@),
        r@.must_succeed == must_succeed,
{
    PlanStep { program: String::from_str(program), args, must_succeed }
}

/// The power and session actions the shell offers.
pub open spec fn known_actions() -> Seq<Seq<u8>> {
    seq![
        bytes_of("shutdown"@),
        bytes_of("reboot"@),
        bytes_of("suspend"@),
        bytes_of("lock"@),
        bytes_of("logout"@),
    ]
}

/// The plan of a host action: which tools run, with which arguments,
/// and which of them must succeed. Locking is served by two tools, both
/// best-effort; logging out names the user; an unknown action is
/// refused.
#[verifier::loop_isolation(false)]
pub fn system_action_plan(action: &str, username: &str) -> (r: Result<Vec<PlanStep>, String>)
    ensures
        ({
            let ab = action.spec_bytes();
            match r {
                Ok(plan) => {
                    let views = plan@.map_values(|s: PlanStep| s@);
                    &&& (ab == bytes_of("shutdown"@) ==> views == seq![
                        StepView {
                            program: "systemctl"@,
                            args: seq!["poweroff"@],
                            must_succeed: true,
                        },
                    ])
                    &&& (ab == bytes_of("reboot"@) ==> views == seq![
                        StepView {
                            program: "systemctl"@,
                            args: seq!["reboot"@],
                            must_succeed: true,
                        },
                    ])
                    &&& (ab == bytes_of("suspend"@) ==> views == seq![
                        StepView {
                            program: "systemctl"@,
                            args: seq!["suspend"@],
                            must_succeed: true,
                        },
                    ])
                    &&& (ab == bytes_of("lock"@) ==> views == seq![
                        StepView {
                            program: "loginctl"@,
                            args: seq!["lock-session"@],
                            must_succeed: false,
                        },
                        StepView {
                            program: "gnome-screensaver-command"@,
                            args: seq!["-l"@],
                            must_succeed: false,
                        },
                    ])
                    &&& (ab == bytes_of("logout"@) ==> views == seq![
                        StepView {
                            program: "loginctl"@,
                            args: seq!["terminate-user"@, username@],
                            must_succeed: true,
                        },
                    ])
                    &&& crate::files::member(ab, known_actions())
                },
                Err(e) => !crate::files::member(ab, known_actions()) && e@ == "Unknown action"@,
            }
        }),
{
    proof {
        reveal_strlit("shutdown");
        reveal_strlit("reboot");
        reveal_strlit("suspend");
        reveal_strlit("lock");
        reveal_strlit("logout");
        crate::text::lemma_ascii_literal_bytes(
            "shutdown"@,
            seq![115u8, 104u8, 117u8, 116u8, 100u8, 111u8, 119u8, 110u8],
        );
        crate::text::lemma_ascii_literal_bytes(
            "reboot"@,
            seq![114u8, 101u8, 98u8, 111u8, 111u8, 116u8],
        );
        crate::text::lemma_ascii_literal_bytes(
            "suspend"@,
            seq![115u8, 117u8, 115u8, 112u8, 101u8, 110u8, 100u8],
        );
        crate::text::lemma_ascii_literal_bytes("lock"@, seq![108u8, 111u8, 99u8, 107u8]);
        crate::text::lemma_ascii_literal_bytes(
            "logout"@,
            seq![108u8, 111u8, 103u8, 111u8, 117u8, 116u8],
        );
    }
    let ab = action.as_bytes();
    let shutdown = String::from_str("shutdown");
    let reboot = String::from_str("reboot");
    let suspend = String::from_str("suspend");
    let lock = String::from_str("lock");
    let logout = String::from_str("logout");
    if crate::text::bytes_eq(ab, shutdown.as_str().as_bytes()) {
        let args: Vec<String> = vec![String::from_str("poweroff")];
        proof {
            assert(args@.map_values(|a: String| a@) =~= seq!["poweroff"@]);
        }
        let plan: Vec<PlanStep> = vec![step("systemctl", args, true)];
        proof {
            assert(crate::files::member(action.spec_bytes(), known_actions())) by {
                assert(known_actions()[0] == action.spec_bytes());
            }
            assert(plan@.map_values(|s: PlanStep| s@) =~= seq![
                StepView { program: "systemctl"@, args: seq!["poweroff"@], must_succeed: true },
            ]);
        }
        Ok(plan)
    } else if crate::text::bytes_eq(ab, reboot.as_str().as_bytes()) {
        let args: Vec<String> = vec![String::from_str("reboot")];
        proof {
            assert(args@.map_values(|a: String| a@) =~= seq!["reboot"@]);
        }
        let plan: Vec<PlanStep> = vec![step("systemctl", args, true)];
        proof {
            assert(crate::files::member(action.spec_bytes(), known_actions())) by {
                assert(known_actions()[1] == action.spec_bytes());
            }
            assert(plan@.map_values(|s: PlanStep| s@) =~= seq![
                StepView { program: "systemctl"@, args: seq!["reboot"@], must_succeed: true },
            ]);
        }
        Ok(plan)
    } else if crate::text::bytes_eq(ab, suspend.as_str().as_bytes()) {
        let args: Vec<String> = vec![String::from_str("suspend")];
        proof {
            assert(args@.map_values(|a: String| a@) =~= seq!["suspend"@]);
        }
        let plan: Vec<PlanStep> = vec![step("systemctl", args, true)];
        proof {
            assert(crate::files::member(action.spec_bytes(), known_actions())) by {
                assert(known_actions()[2] == action.spec_bytes());
            }
            assert(plan@.map_values(|s: PlanStep| s@) =~= seq![
                StepView { program: "systemctl"@, args: seq!["suspend"@], must_succeed: true },
            ]);
        }
        Ok(plan)
    } else if crate::text::bytes_eq(ab, lock.as_str().as_bytes()) {
        let args1: Vec<String> = vec![String::from_str("lock-session")];
        let args2: Vec<String> = vec![String::from_str("-l")];
        proof {
            assert(args1@.map_values(|a: String| a@) =~= seq!["lock-session"@]);
            assert(args2@.map_values(|a: String| a@) =~= seq!["-l"@]);
        }
        let plan: Vec<PlanStep> = vec![
            step("loginctl", args1, false),
            step("gnome-screensaver-command", args2, false),
        ];
        proof {
            assert(crate::files::member(action.spec_bytes(), known_actions())) by {
                assert(known_actions()[3] == action.spec_bytes());
            }
            assert(plan@.map_values(|s: PlanStep| s@) =~= seq![
                StepView {
                    program: "loginctl"@,
                    args: seq!["lock-session"@],
                    must_succeed: false,
                },
                StepView {
                    program: "gnome-screensaver-command"@,
                    args: seq!["-l"@],
                    must_succeed: false,
                },
            ]);
        }
        Ok(plan)
    } else if crate::text::bytes_eq(ab, logout.as_str().as_bytes()) {
        let args: Vec<String> = vec![
            String::from_str("terminate-user"),
            String::from_str(username),
        ];
        proof {
            assert(args@.map_values(|a: String| a@) =~= seq!["terminate-user"@, username@]);
        }
        let plan: Vec<PlanStep> = vec![step("loginctl", args, true)];
        proof {
            assert(crate::files::member(action.spec_bytes(), known_actions())) by {
                assert(known_actions()[4] == action.spec_bytes());
            }
            assert(plan@.map_values(|s: PlanStep| s@) =~= seq![
                StepView {
                    program: "loginctl"@,
                    args: seq!["terminate-user"@, username@],
                    must_succeed: true,
                },
            ]);
        }
        Ok(plan)
    } else {
        proof {
            if crate::files::member(action.spec_bytes(), known_actions()) {
                let j = choose|j: int|
                    0 <= j < known_actions().len() && known_actions()[j] == action.spec_bytes();
            }
        }
        Err(String::from_str("Unknown action"))
    }
}

// ------------------------------------------------------------------
// Wallpaper
// ------------------------------------------------------------------

/// Position of the first byte of `s` that is not a path separator.
pub open spec fn skip_slashes(s: Seq<u8>, from: int) -> int
    decreases s.len() - from,
    when 0 <= from <= s.len()
{
    if from >= s.len() {
        s.len() as int
    } else if s[from] == 47 {
        skip_slashes(s, from + 1)
    } else {
        from
    }
}

proof fn lemma_skip_slashes(s: Seq<u8>, from: int)
    requires
        0 <= from <= s.len(),
    ensures
        from <= skip_slashes(s, from) <= s.len(),
        forall|j: int| from <= j < skip_slashes(s, from) ==> s[j] == 47,
    decreases s.len() - from,
{
    if from < s.len() && s[from] == 47 {
        lemma_skip_slashes(s, from + 1);
    }
}

/// The URI a wallpaper request denotes: a request that already carries
/// a URI scheme passes through; a bare path becomes a file URI, its
/// leading separators replaced by the scheme's three.
pub open spec fn wallpaper_uri_spec(path: Seq<u8>) -> Seq<u8> {
    if starts_with(path, bytes_of("http://"@)) || starts_with(path, bytes_of("https://"@))
        || starts_with(path, bytes_of("file://"@)) {
        path
    } else {
        bytes_of("file:///"@) + path.subrange(skip_slashes(path, 0), path.len() as int)
    }
}

/// Build the URI of a wallpaper request, as [`wallpaper_uri_spec`]
/// describes.
#[verifier::loop_isolation(false)]
pub fn wallpaper_uri(path: &str) -> (r: String)
    ensures
        bytes_of(r@) == wallpaper_uri_spec(path.spec_bytes()),
{
    let pb = path.as_bytes();
    let http = String::from_str("http://");
    let https = String::from_str("https://");
    let file = String::from_str("file://");
    if starts_with_exec(pb, http.as_str().as_bytes()) || starts_with_exec(
        pb,
        https.as_str().as_bytes(),
    ) || starts_with_exec(pb, file.as_str().as_bytes()) {
        return path.to_owned();
    }
    let mut i: usize = 0;
    while i < pb.len() && pb[i] == 47
        invariant
            0 <= i <= pb@.len(),
            skip_slashes(pb@, 0) == skip_slashes(pb@, i as int),
        decreases pb@.len() - i,
    {
        i = i + 1;
    }
    proof {
        lemma_skip_slashes(pb@, 0);
        assert(i == skip_slashes(pb@, 0));
    }
    let mut rest: Vec<u8> = Vec::new();
    let mut k: usize = i;
    while k < pb.len()
        invariant
            i <= k <= pb@.len(),
            rest@ =~= pb@.subrange(i as int, k as int),
        decreases pb@.len() - k,
    {
        rest.push(pb[k]);
        k = k + 1;
    }
    proof {
        encode_utf8_valid_utf8(path@);
        assert(valid_utf8(rest@)) by {
            is_char_boundary_start_end_of_seq(pb@);
            if i > 0 {
                lemma_boundary_after_ascii(pb@, i - 1);
            }
            lemma_valid_subrange(pb@, i as int, pb@.len() as int);
        }
    }
    let suffix = string_from_utf8(rest);
    let mut r = String::from_str("file:///");
    r.append(suffix.as_str());
    proof {
        lemma_encode_concat("file:///"@, suffix@);
    }
    r
}

/// The plan of a wallpaper assignment: the primary key must succeed,
/// and the dark-variant key is set best-effort, its failure swallowed.
pub fn wallpaper_plan(path: &str) -> (r: Vec<PlanStep>)
    ensures
        ({
            let views = r@.map_values(|s: PlanStep| s@);
            &&& views.len() == 2
            &&& views[0].program == "gsettings"@
            &&& views[0].must_succeed
            &&& views[1].program == "gsettings"@
            &&& !views[1].must_succeed
            &&& views[0].args.len() == 4
            &&& views[0].args[0] == "set"@
            &&& views[0].args[1] == "org.gnome.desktop.background"@
            &&& views[0].args[2] == "picture-uri"@
            &&& bytes_of(views[0].args[3]) == wallpaper_uri_spec(path.spec_bytes())
            &&& views[1].args.len() == 4
            &&& views[1].args[0] == "set"@
            &&& views[1].args[1] == "org.gnome.desktop.background"@
            &&& views[1].args[2] == "picture-uri-dark"@
            &&& bytes_of(views[1].args[3]) == wallpaper_uri_spec(path.spec_bytes())
        }),
{
    let uri = wallpaper_uri(path);
    let uri2 = uri.clone();
    let args1: Vec<String> = vec![
        String::from_str("set"),
        String::from_str("org.gnome.desktop.background"),
        String::from_str("picture-uri"),
        uri,
    ];
    let args2: Vec<String> = vec![
        String::from_str("set"),
        String::from_str("org.gnome.desktop.background"),
        String::from_str("picture-uri-dark"),
        uri2,
    ];
    let r: Vec<PlanStep> = vec![
        step("gsettings", args1, true),
        step("gsettings", args2, false),
    ];
    proof {
        assert(r@.map_values(|s: PlanStep| s@).len() == 2);
        assert(r@.map_values(|s: PlanStep| s@)[0] == r@[0]@);
        assert(r@.map_values(|s: PlanStep| s@)[1] == r@[1]@);
        assert(r@[0]@.args[3] == args1@.map_values(|a: String| a@)[3]);
        assert(r@[1]@.args[3] == args2@.map_values(|a: String| a@)[3]);
    }
    r
}

} // verus!
