//! Where the log lives.
//!
//! Resolution order, highest priority first: an explicit directory in the
//! configuration; the `ARBITRO_ACKSTORE_DIR` environment variable; the
//! platform's state directory, `<state>/arbitro/ackstore`; nothing. There is
//! no fallback to the working directory or a temporary one: the first moves
//! with whoever starts the process, the second is wiped on reboot, and either
//! way the store would be silently empty.
//!
//! A directory is given as the list of its parts, to be joined in order.

use crate::ackstore::store::StoreError;
use vstd::prelude::*;

verus! {

/// Platforms that differ in where they keep state.
#[derive(Debug, Clone, Copy, PartialEq, Eq, Structural)]
pub enum Platform {
    /// Linux, the BSDs and the like.
    Unix,
    MacOs,
    Windows,
    Other,
}

/// The environment variables that bear on the directory; `None` for one that
/// is unset or not valid text.
#[derive(Debug)]
pub struct DirEnv {
    /// `ARBITRO_ACKSTORE_DIR`
    pub override_dir: Option<String>,
    /// `HOME`
    pub home: Option<String>,
    /// `XDG_STATE_HOME`
    pub xdg_state_home: Option<String>,
    /// `LOCALAPPDATA`
    pub local_app_data: Option<String>,
}

/// Unicode white space.
pub open spec fn white(c: char) -> bool {
    ||| 0x9 <= c as int <= 0xD
    ||| c as int == 0x20
    ||| c as int == 0x85
    ||| c as int == 0xA0
    ||| c as int == 0x1680
    ||| 0x2000 <= c as int <= 0x200A
    ||| c as int == 0x2028
    ||| c as int == 0x2029
    ||| c as int == 0x202F
    ||| c as int == 0x205F
    ||| c as int == 0x3000
}

/// Nothing but white space.
pub open spec fn blank(s: Seq<char>) -> bool {
    forall|i: int| 0 <= i < s.len() ==> white(#[trigger] s[i])
}

fn is_blank(s: &str) -> (r: bool)
    ensures
        r == blank(s@),
{
    let n: usize = s.unicode_len();
    let mut i: usize = 0;
    while i < n
        invariant
            i <= n == s@.len(),
            forall|j: int| 0 <= j < i ==> white(#[trigger] s@[j]),
        decreases n - i,
    {
        let c: u32 = s.get_char(i) as u32;
        let w: bool = (0x9 <= c && c <= 0xD) || c == 0x20 || c == 0x85 || c == 0xA0 || c == 0x1680
            || (0x2000 <= c && c <= 0x200A) || c == 0x2028 || c == 0x2029 || c == 0x202F || c
            == 0x205F || c == 0x3000;
        if !w {
            assert(!white(s@[i as int]));
            return false;
        }
        i = i + 1;
    }
    true
}

/// A variable that is set to something.
pub open spec fn non_empty(v: Option<String>) -> Option<Seq<char>> {
    match v {
        Some(s) => if s@.len() == 0 {
            None
        } else {
            Some(s@)
        },
        None => None,
    }
}

/// The parts of the home directory followed by two more.
pub open spec fn below_home(env: DirEnv, a: Seq<char>, b: Seq<char>) -> Result<
    Seq<Seq<char>>,
    Seq<char>,
> {
    match non_empty(env.home) {
        Some(h) => Ok(seq![h, a, b]),
        None => Err("$HOME is not set"@),
    }
}

/// The platform's state directory, or why there is none. A relative
/// `XDG_STATE_HOME` counts as unset.
pub open spec fn state_base(env: DirEnv, platform: Platform) -> Result<
    Seq<Seq<char>>,
    Seq<char>,
> {
    match platform {
        Platform::Windows => match non_empty(env.local_app_data) {
            Some(d) => Ok(seq![d]),
            None => Err("%LOCALAPPDATA% is not set"@),
        },
        Platform::MacOs => below_home(env, "Library"@, "Application Support"@),
        Platform::Unix => match non_empty(env.xdg_state_home) {
            Some(x) => if x[0] == '/' {
                Ok(seq![x])
            } else {
                below_home(env, ".local"@, "state"@)
            },
            None => below_home(env, ".local"@, "state"@),
        },
        Platform::Other => Err("unsupported platform has no known state directory"@),
    }
}

/// The directory used when none is configured, or why there is none.
pub open spec fn resolved_dir(env: DirEnv, platform: Platform) -> Result<
    Seq<Seq<char>>,
    Seq<char>,
> {
    if env.override_dir is Some && !blank(env.override_dir->0@) {
        Ok(seq![env.override_dir->0@])
    } else {
        match state_base(env, platform) {
            Ok(base) => Ok(base + seq!["arbitro"@, "ackstore"@]),
            Err(why) => Err(why),
        }
    }
}

/// The texts of a list of strings.
pub open spec fn texts(v: Seq<String>) -> Seq<Seq<char>> {
    v.map_values(|s: String| s@)
}

/// A directory, or a `NoDefaultDir` that says why there is none.
pub open spec fn dir_outcome(
    r: Result<Vec<String>, StoreError>,
    want: Result<Seq<Seq<char>>, Seq<char>>,
) -> bool {
    match r {
        Ok(parts) => want == Ok::<Seq<Seq<char>>, Seq<char>>(texts(parts@)),
        Err(e) => e matches StoreError::NoDefaultDir(why) && want == Err::<
            Seq<Seq<char>>,
            Seq<char>,
        >(why@),
    }
}

fn set_value(v: &Option<String>) -> (r: Option<String>)
    ensures
        match r {
            Some(s) => non_empty(*v) == Some(s@),
            None => non_empty(*v) is None,
        },
{
    match v {
        Some(s) => if s.as_str().is_empty() {
            None
        } else {
            Some(s.clone())
        },
        None => None,
    }
}

fn home_dir(env: &DirEnv, a: &str, b: &str) -> (r: Result<Vec<String>, StoreError>)
    ensures
        dir_outcome(r, below_home(*env, a@, b@)),
{
    match set_value(&env.home) {
        Some(h) => {
            let ghost hs = h@;
            let parts = vec![h, a.to_owned(), b.to_owned()];
            assert(texts(parts@) =~= seq![hs, a@, b@]);
            Ok(parts)
        },
        None => Err(StoreError::NoDefaultDir("$HOME is not set".to_owned())),
    }
}

/// The platform's state directory.
pub fn state_base_dir(env: &DirEnv, platform: Platform) -> (r: Result<Vec<String>, StoreError>)
    ensures
        dir_outcome(r, state_base(*env, platform)),
{
    match platform {
        Platform::Windows => match set_value(&env.local_app_data) {
            Some(d) => {
                let ghost ds = d@;
                let parts = vec![d];
                assert(texts(parts@) =~= seq![ds]);
                Ok(parts)
            },
            None => Err(StoreError::NoDefaultDir("%LOCALAPPDATA% is not set".to_owned())),
        },
        Platform::MacOs => home_dir(env, "Library", "Application Support"),
        Platform::Unix => {
            if let Some(x) = set_value(&env.xdg_state_home) {
                if x.as_str().get_char(0) == '/' {
                    let ghost xs = x@;
                    let parts = vec![x];
                    assert(texts(parts@) =~= seq![xs]);
                    return Ok(parts);
                }
            }
            home_dir(env, ".local", "state")
        },
        Platform::Other => Err(
            StoreError::NoDefaultDir(
                "unsupported platform has no known state directory".to_owned(),
            ),
        ),
    }
}

/// The directory that the log uses when none is configured.
pub fn default_dir(env: &DirEnv, platform: Platform) -> (r: Result<Vec<String>, StoreError>)
    ensures
        dir_outcome(r, resolved_dir(*env, platform)),
{
    if let Some(d) = &env.override_dir {
        if !is_blank(d.as_str()) {
            let parts = vec![d.clone()];
            assert(texts(parts@) =~= seq![d@]);
            return Ok(parts);
        }
    }
    match state_base_dir(env, platform) {
        Ok(base) => {
            let ghost b = texts(base@);
            let mut parts = base;
            parts.push("arbitro".to_owned());
            parts.push("ackstore".to_owned());
            assert(texts(parts@) =~= b + seq!["arbitro"@, "ackstore"@]);
            Ok(parts)
        },
        Err(e) => Err(e),
    }
}

/// What a look at a directory found.
#[derive(Debug)]
pub enum DirProbe {
    IsDir,
    /// Something is there that is not a directory.
    NotDir,
    /// Nothing was there, and it could be created.
    Created,
    CannotCreate(String),
    CannotStat(String),
}

/// Whether a directory can hold the store, or precisely why not.
pub fn prepare_dir(dir: &str, probe: DirProbe) -> (r: Result<(), StoreError>)
    ensures
        match r {
            Ok(_) => probe is IsDir || probe is Created,
            Err(e) => e matches StoreError::BadDir { path, reason } && path@ == dir@ && match probe {
                DirProbe::NotDir => reason@ == "path exists but is not a directory"@,
                DirProbe::CannotCreate(why) => reason@ == "cannot create directory: "@ + why@,
                DirProbe::CannotStat(why) => reason@ == "cannot stat: "@ + why@,
                _ => false,
            },
        },
{
    let reason = match probe {
        DirProbe::IsDir => {
            return Ok(());
        },
        DirProbe::Created => {
            return Ok(());
        },
        DirProbe::NotDir => "path exists but is not a directory".to_owned(),
        DirProbe::CannotCreate(why) => {
            let mut s = "cannot create directory: ".to_owned();
            s.push_str(why.as_str());
            s
        },
        DirProbe::CannotStat(why) => {
            let mut s = "cannot stat: ".to_owned();
            s.push_str(why.as_str());
            s
        },
    };
    Err(StoreError::BadDir { path: dir.to_owned(), reason })
}

/// Name of the lock file inside the store directory.
pub const LOCK_FILE: &'static str = "ackstore.lock";

/// What became of the attempt to lock a store directory.
#[derive(Debug)]
pub enum LockAttempt {
    Held,
    /// Another process holds it.
    WouldBlock,
    /// The file could not be opened or locked.
    Failed(String),
}

/// The error that an attempt to lock a directory amounts to, if any.
pub fn lock_outcome(dir: &str, attempt: LockAttempt) -> (r: Result<(), StoreError>)
    ensures
        match attempt {
            LockAttempt::Held => r is Ok,
            LockAttempt::WouldBlock => r matches Err(e) && e matches StoreError::Locked(path)
                && path@ == dir@,
            LockAttempt::Failed(why) => r matches Err(e) && e matches StoreError::BadDir {
                path,
                reason,
            } && path@ == dir@ && reason@ == "cannot open ackstore.lock: "@ + why@,
        },
{
    match attempt {
        LockAttempt::Held => Ok(()),
        LockAttempt::WouldBlock => Err(StoreError::Locked(dir.to_owned())),
        LockAttempt::Failed(why) => {
            let mut reason = "cannot open ackstore.lock: ".to_owned();
            reason.push_str(why.as_str());
            Err(StoreError::BadDir { path: dir.to_owned(), reason })
        },
    }
}

// ── laws ───────────────────────────────────────────────────────────────────
/// A directory that is named by the override is used as it is, whatever the
/// platform; a blank override counts as none.
pub proof fn override_wins(env: DirEnv, platform: Platform)
    ensures
        env.override_dir is Some && !blank(env.override_dir->0@) ==> resolved_dir(env, platform)
            == Ok::<Seq<Seq<char>>, Seq<char>>(seq![env.override_dir->0@]),
        env.override_dir is None || blank(env.override_dir->0@) ==> resolved_dir(env, platform)
            == resolved_dir(DirEnv { override_dir: None, ..env }, platform),
{
}

/// Without an override the directory is `arbitro/ackstore` below the state
/// directory of the platform, and there is none where the platform names no
/// such directory: never the working directory or a temporary one.
pub proof fn default_is_below_the_state_dir(env: DirEnv)
    requires
        env.override_dir is None,
    ensures
        env.xdg_state_home is Some && env.xdg_state_home->0@.len() > 0 && env.xdg_state_home->0@[0]
            == '/' ==> resolved_dir(env, Platform::Unix) == Ok::<Seq<Seq<char>>, Seq<char>>(
            seq![env.xdg_state_home->0@, "arbitro"@, "ackstore"@],
        ),
        (env.xdg_state_home is None || env.xdg_state_home->0@.len() == 0
            || env.xdg_state_home->0@[0] != '/') && env.home is Some && env.home->0@.len() > 0
            ==> resolved_dir(env, Platform::Unix) == Ok::<Seq<Seq<char>>, Seq<char>>(
            seq![env.home->0@, ".local"@, "state"@, "arbitro"@, "ackstore"@],
        ),
        (env.xdg_state_home is None || env.xdg_state_home->0@.len() == 0
            || env.xdg_state_home->0@[0] != '/') && (env.home is None || env.home->0@.len() == 0)
            ==> resolved_dir(env, Platform::Unix) is Err,
        env.home is Some && env.home->0@.len() > 0 ==> resolved_dir(env, Platform::MacOs) == Ok::<
            Seq<Seq<char>>,
            Seq<char>,
        >(seq![env.home->0@, "Library"@, "Application Support"@, "arbitro"@, "ackstore"@]),
        env.home is None || env.home->0@.len() == 0 ==> resolved_dir(env, Platform::MacOs) is Err,
        env.local_app_data is Some && env.local_app_data->0@.len() > 0 ==> resolved_dir(
            env,
            Platform::Windows,
        ) == Ok::<Seq<Seq<char>>, Seq<char>>(
            seq![env.local_app_data->0@, "arbitro"@, "ackstore"@],
        ),
        env.local_app_data is None || env.local_app_data->0@.len() == 0 ==> resolved_dir(
            env,
            Platform::Windows,
        ) is Err,
        resolved_dir(env, Platform::Other) is Err,
{
    let tail = seq!["arbitro"@, "ackstore"@];
    if env.xdg_state_home is Some {
        let x = env.xdg_state_home->0@;
        assert(seq![x] + tail =~= seq![x, "arbitro"@, "ackstore"@]);
    }
    if env.local_app_data is Some {
        let x = env.local_app_data->0@;
        assert(seq![x] + tail =~= seq![x, "arbitro"@, "ackstore"@]);
    }
    if env.home is Some {
        let h = env.home->0@;
        assert(seq![h, ".local"@, "state"@] + tail =~= seq![
            h,
            ".local"@,
            "state"@,
            "arbitro"@,
            "ackstore"@,
        ]);
        assert(seq![h, "Library"@, "Application Support"@] + tail =~= seq![
            h,
            "Library"@,
            "Application Support"@,
            "arbitro"@,
            "ackstore"@,
        ]);
    }
}

/// An override counts as none where it holds only what separates words: tabs,
/// line breaks, spaces of any width. One visible character makes it a
/// directory.
pub proof fn blank_means_white_space(s: Seq<char>, i: int)
    requires
        0 <= i < s.len(),
    ensures
        blank(Seq::empty()),
        blank(s) ==> {
            let c = s[i] as int;
            ||| c == 0x9 || c == 0xA || c == 0xB || c == 0xC || c == 0xD || c == 0x20
            ||| c == 0x85 || c == 0xA0 || c == 0x1680 || 0x2000 <= c <= 0x200A
            ||| c == 0x2028 || c == 0x2029 || c == 0x202F || c == 0x205F || c == 0x3000
        },
        (forall|j: int| 0 <= j < s.len() ==> {
            let c = (#[trigger] s[j]) as int;
            ||| 0x9 <= c <= 0xD || c == 0x20 || c == 0x85 || c == 0xA0 || c == 0x1680
            ||| 0x2000 <= c <= 0x200A || c == 0x2028 || c == 0x2029 || c == 0x202F
            ||| c == 0x205F || c == 0x3000
        }) ==> blank(s),
{
}

} // verus!
