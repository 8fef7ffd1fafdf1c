//! Path decisions: where configuration, output and the external tools
//! live.  Everything environment-dependent — directory lookups, search
//! paths, file-existence checks — is observed by the shell and handed
//! in as plain values; the functions here make the decisions the tool
//! documents, exactly.
//!
//! Paths are joined with `/`, which every supported platform accepts.

use vstd::prelude::*;

verus! {

use vstd::string::StrSliceExecFns;
use vstd::string::StringExecFns;
use crate::config::WhisperConfig;
use crate::strutil::last_idx;
use crate::strutil::lemma_last_idx;
use crate::strutil::push_char;
use crate::strutil::rfind_char;
use crate::strutil::starts_with;
use crate::strutil::starts_with_spec;
use crate::strutil::trim;
use crate::strutil::trim_spec;

pub fn join_path(base: &str, name: &str) -> (r: String)
    ensures
        r@ == base@ + seq!['/'] + name@,
{
    let mut r = base.to_owned();
    push_char(&mut r, '/');
    let r = r.concat(name);
    proof {
        assert(r@ =~= base@ + seq!['/'] + name@);
    }
    r
}

/// Where the settings file lives under the platform's configuration
/// directory.
pub fn config_path(config_dir: &str) -> (r: String)
    ensures
        r@ == config_dir@ + seq!['/'] + "config.json"@,
{
    join_path(config_dir, "config.json")
}

/// The directory transcripts are written to: the configured output
/// directory when one is set, the platform default otherwise.
pub fn output_root(output_dir: &str, default_dir: &str) -> (r: String)
    ensures
        trim_spec(output_dir@).len() > 0 ==> r@ == trim_spec(output_dir@),
        trim_spec(output_dir@).len() == 0 ==> r@ == default_dir@,
{
    let trimmed = trim(output_dir);
    if trimmed.unicode_len() > 0 {
        trimmed.to_owned()
    } else {
        default_dir.to_owned()
    }
}

/// The recognizer's working directory: under the user's documents on
/// Windows, under the platform data directory elsewhere.
pub fn whisper_base_dir(is_windows: bool, documents_dir: Option<&str>, data_dir: &str) -> (r:
    String)
    ensures
        is_windows && documents_dir is Some ==> r@ == documents_dir->0@ + seq!['/']
            + "WhisperDesktop"@ + seq!['/'] + "whisper"@,
        !(is_windows && documents_dir is Some) ==> r@ == data_dir@ + seq!['/'] + "whisper"@,
{
    if is_windows {
        if let Some(documents) = documents_dir {
            let base = join_path(documents, "WhisperDesktop");
            return join_path(base.as_str(), "whisper");
        }
    }
    join_path(data_dir, "whisper")
}

/// Where model files are looked for by default.
pub fn default_whisper_model_root(is_windows: bool, documents_dir: Option<&str>, data_dir: &str) -> (
    r: String)
    ensures
        is_windows && documents_dir is Some ==> r@ == documents_dir->0@ + seq!['/']
            + "WhisperDesktop"@,
        !(is_windows && documents_dir is Some) ==> r@ == data_dir@ + seq!['/'] + "whisper"@ + seq![
            '/',
        ] + "models"@,
{
    if is_windows {
        if let Some(documents) = documents_dir {
            return join_path(documents, "WhisperDesktop");
        }
    }
    let base = whisper_base_dir(is_windows, documents_dir, data_dir);
    join_path(base.as_str(), "models")
}

/// The binary names tried on the search path when none is configured.
pub fn default_whisper_binary_candidates(is_windows: bool) -> (r: Vec<String>)
    ensures
        is_windows ==> r.deep_view() == seq![
            "whisper-cli.exe"@,
            "whisper.exe"@,
            "whisper-cpp.exe"@,
            "main.exe"@,
        ],
        !is_windows ==> r.deep_view() == seq!["whisper-cli"@, "whisper"@, "whisper-cpp"@, "main"@],
{
    let mut r: Vec<String> = Vec::new();
    if is_windows {
        r.push("whisper-cli.exe".to_owned());
        r.push("whisper.exe".to_owned());
        r.push("whisper-cpp.exe".to_owned());
        r.push("main.exe".to_owned());
        proof {
            assert(r.deep_view() =~= seq![
                "whisper-cli.exe"@,
                "whisper.exe"@,
                "whisper-cpp.exe"@,
                "main.exe"@,
            ]);
        }
    } else {
        r.push("whisper-cli".to_owned());
        r.push("whisper".to_owned());
        r.push("whisper-cpp".to_owned());
        r.push("main".to_owned());
        proof {
            assert(r.deep_view() =~= seq!["whisper-cli"@, "whisper"@, "whisper-cpp"@, "main"@]);
        }
    }
    r
}

/// Fixed locations tried for the recognizer binary when the search
/// path yields nothing.
pub fn default_whisper_binary_paths(is_macos: bool, is_windows: bool, documents_dir: Option<&str>)
    -> (r: Vec<String>)
    ensures
        is_macos ==> r.deep_view() == seq![
            "/opt/homebrew/bin/whisper-cli"@,
            "/usr/local/bin/whisper-cli"@,
        ],
        !is_macos && is_windows && documents_dir is Some ==> r.deep_view() == seq![
            documents_dir->0@ + seq!['/'] + "WhisperDesktop"@ + seq!['/'] + "whisper-bin-x64"@
                + seq!['/'] + "Release"@ + seq!['/'] + "whisper-cli.exe"@,
        ],
        !is_macos && !(is_windows && documents_dir is Some) ==> r.deep_view() == Seq::<
            Seq<char>,
        >::empty(),
{
    let mut r: Vec<String> = Vec::new();
    if is_macos {
        r.push("/opt/homebrew/bin/whisper-cli".to_owned());
        r.push("/usr/local/bin/whisper-cli".to_owned());
        proof {
            assert(r.deep_view() =~= seq![
                "/opt/homebrew/bin/whisper-cli"@,
                "/usr/local/bin/whisper-cli"@,
            ]);
        }
    } else if is_windows {
        if let Some(documents) = documents_dir {
            let p = join_path(documents, "WhisperDesktop");
            let p = join_path(p.as_str(), "whisper-bin-x64");
            let p = join_path(p.as_str(), "Release");
            let p = join_path(p.as_str(), "whisper-cli.exe");
            let ghost pv = p@;
            r.push(p);
            proof {
                assert(r.deep_view() =~= seq![pv]);
            }
        } else {
            proof {
                assert(r.deep_view() =~= Seq::<Seq<char>>::empty());
            }
        }
    } else {
        proof {
            assert(r.deep_view() =~= Seq::<Seq<char>>::empty());
        }
    }
    r
}

/// Fixed locations tried for the audio converter.
pub fn default_ffmpeg_paths(is_macos: bool) -> (r: Vec<String>)
    ensures
        is_macos ==> r.deep_view() == seq!["/opt/homebrew/bin/ffmpeg"@, "/usr/local/bin/ffmpeg"@],
        !is_macos ==> r.deep_view() == Seq::<Seq<char>>::empty(),
{
    let mut r: Vec<String> = Vec::new();
    if is_macos {
        r.push("/opt/homebrew/bin/ffmpeg".to_owned());
        r.push("/usr/local/bin/ffmpeg".to_owned());
        proof {
            assert(r.deep_view() =~= seq!["/opt/homebrew/bin/ffmpeg"@, "/usr/local/bin/ffmpeg"@]);
        }
    } else {
        proof {
            assert(r.deep_view() =~= Seq::<Seq<char>>::empty());
        }
    }
    r
}

// ---------------------------------------------------------------------------
// Resolution of the recognizer's binary and model
// ---------------------------------------------------------------------------

/// What the shell observed on the local machine while resolving the
/// recognizer's resources.
pub struct WhisperProbe {
    /// first of the default binary names found on the search path
    pub binary_in_path: Option<String>,
    /// first of the default binary locations that is a file
    pub default_binary: Option<String>,
    /// the configured binary path stands as given: it is absolute, or
    /// it exists on disk
    pub requested_binary_usable: bool,
    /// the configured binary name found on the search path
    pub requested_binary_in_path: Option<String>,
    /// the root directory for model files
    pub model_root: String,
    /// the configured model path is absolute
    pub requested_model_is_absolute: bool,
}

/// `s` with every leading repetition of `p` removed.
pub open spec fn strip_all_prefix(s: Seq<char>, p: Seq<char>) -> Seq<char>
    decreases s.len(),
{
    if p.len() > 0 && starts_with_spec(s, p) {
        strip_all_prefix(s.subrange(p.len() as int, s.len() as int), p)
    } else {
        s
    }
}

fn strip_all_prefix_exec<'a>(s: &'a str, p: &str) -> (r: &'a str)
    ensures
        r@ == strip_all_prefix(s@, p@),
    decreases s@.len(),
{
    let pn = p.unicode_len();
    if pn > 0 && starts_with(s, p) {
        let rest = s.substring_char(pn, s.unicode_len());
        strip_all_prefix_exec(rest, p)
    } else {
        s
    }
}

/// The binary path the configuration and probe determine, or nothing
/// when no binary can be found anywhere.
pub open spec fn spec_resolve_binary(cfg: &WhisperConfig, probe: &WhisperProbe) -> Option<
    Seq<char>,
> {
    let req = trim_spec(cfg.binary_path@);
    if req.len() == 0 {
        match probe.binary_in_path {
            Some(p) => Some(p@),
            None => match probe.default_binary {
                Some(p) => Some(p@),
                None => None,
            },
        }
    } else {
        if probe.requested_binary_usable {
            Some(req)
        } else {
            match probe.requested_binary_in_path {
                Some(f) => Some(f@),
                None => Some(req),
            }
        }
    }
}

/// The model path: the default model under the model root when none
/// is configured; a configured absolute path as is; anything else
/// under the model root, with a redundant leading `models/` component
/// removed.
pub open spec fn spec_resolve_model(cfg: &WhisperConfig, probe: &WhisperProbe) -> Seq<char> {
    let req = trim_spec(cfg.model_path@);
    if req.len() == 0 {
        probe.model_root@ + seq!['/'] + "ggml-large-v3.bin"@
    } else if probe.requested_model_is_absolute {
        req
    } else {
        let cleaned = if starts_with_spec(req, "models/"@) {
            strip_all_prefix(req, "models/"@)
        } else if starts_with_spec(req, "models\\"@) {
            strip_all_prefix(req, "models\\"@)
        } else {
            req
        };
        probe.model_root@ + seq!['/'] + cleaned
    }
}

/// Resolve the recognizer binary and model paths from the
/// configuration and the shell's probe of the machine.  Fails exactly
/// when no binary is configured and none was found anywhere.
pub fn resolve_whisper_paths(config: &WhisperConfig, probe: &WhisperProbe) -> (r: Result<
    (String, String),
    String,
>)
    ensures
        r is Ok <==> spec_resolve_binary(config, probe) is Some,
        r matches Ok(p) ==> p.0@ == spec_resolve_binary(config, probe)->0 && p.1@
            == spec_resolve_model(config, probe),
        r matches Err(m) ==> m@
            == "whisper binary not found in PATH. Install whisper.cpp or set WHISPER_BINARY."@,
{
    let requested = trim(config.binary_path.as_str());
    let binary: String = if requested.unicode_len() == 0 {
        match &probe.binary_in_path {
            Some(p) => p.clone(),
            None => {
                match &probe.default_binary {
                    Some(p) => p.clone(),
                    None => {
                        return Err(
                            "whisper binary not found in PATH. Install whisper.cpp or set WHISPER_BINARY.".to_owned(),
                        );
                    },
                }
            },
        }
    } else {
        if probe.requested_binary_usable {
            requested.to_owned()
        } else {
            match &probe.requested_binary_in_path {
                Some(f) => f.clone(),
                None => requested.to_owned(),
            }
        }
    };
    let requested_model = trim(config.model_path.as_str());
    let model: String = if requested_model.unicode_len() == 0 {
        join_path(probe.model_root.as_str(), "ggml-large-v3.bin")
    } else if probe.requested_model_is_absolute {
        requested_model.to_owned()
    } else {
        let cleaned: &str = if starts_with(requested_model, "models/") {
            strip_all_prefix_exec(requested_model, "models/")
        } else if starts_with(requested_model, "models\\") {
            strip_all_prefix_exec(requested_model, "models\\")
        } else {
            requested_model
        };
        join_path(probe.model_root.as_str(), cleaned)
    };
    Ok((binary, model))
}

/// Check that the resolved recognizer resources exist on disk, and
/// say what is missing and how to mend it when one does not.
pub fn ensure_whisper_resources(
    binary_path: &str,
    model_path: &str,
    binary_exists: bool,
    model_exists: bool,
    requested_binary_empty: bool,
    is_windows: bool,
) -> (r: Result<(), String>)
    ensures
        r is Ok <==> binary_exists && model_exists,
        !binary_exists ==> (r matches Err(m) && m@ == "Whisper binary not found at "@ + binary_path@
            + ". "@ + (if requested_binary_empty {
            (if is_windows {
                "Install whisper.cpp and ensure one of [\"whisper-cli.exe\", \"whisper.exe\", \"whisper-cpp.exe\", \"main.exe\"] is in PATH."@
            } else {
                "Install whisper.cpp and ensure one of [\"whisper-cli\", \"whisper\", \"whisper-cpp\", \"main\"] is in PATH."@
            })
        } else {
            "Set WHISPER_BINARY to a valid local path."@
        })),
        binary_exists && !model_exists ==> (r matches Err(m) && m@
            == "Whisper model not found at "@ + model_path@
            + ". Set WHISPER_MODEL to a local model file."@),
{
    if !binary_exists {
        let hint: &str = if requested_binary_empty {
            if is_windows {
                "Install whisper.cpp and ensure one of [\"whisper-cli.exe\", \"whisper.exe\", \"whisper-cpp.exe\", \"main.exe\"] is in PATH."
            } else {
                "Install whisper.cpp and ensure one of [\"whisper-cli\", \"whisper\", \"whisper-cpp\", \"main\"] is in PATH."
            }
        } else {
            "Set WHISPER_BINARY to a valid local path."
        };
        let mut m = "Whisper binary not found at ".to_owned();
        let m2 = m.concat(binary_path);
        let m3 = m2.concat(". ");
        let m4 = m3.concat(hint);
        proof {
            assert(m4@ =~= "Whisper binary not found at "@ + binary_path@ + ". "@ + hint@);
        }
        return Err(m4);
    }
    if !model_exists {
        let m = "Whisper model not found at ".to_owned();
        let m2 = m.concat(model_path);
        let m3 = m2.concat(". Set WHISPER_MODEL to a local model file.");
        proof {
            assert(m3@ =~= "Whisper model not found at "@ + model_path@
                + ". Set WHISPER_MODEL to a local model file."@);
        }
        return Err(m3);
    }
    Ok(())
}

// ---------------------------------------------------------------------------
// Resolution of the audio converter
// ---------------------------------------------------------------------------

/// What the shell observed while looking for the audio converter.
pub struct FfmpegProbe {
    /// the configured converter path is a file
    pub requested_is_file: bool,
    /// the configured converter name found on the search path
    pub requested_in_path: Option<String>,
    /// the converter environment override, when set
    pub env_binary: Option<String>,
    /// that override names a file
    pub env_is_file: bool,
    /// that override found on the search path
    pub env_in_path: Option<String>,
    /// the plain converter name found on the search path
    pub ffmpeg_in_path: Option<String>,
    /// first of the fixed default locations that is a file
    pub default_existing: Option<String>,
    /// the converter found under the package manager's tree
    pub winget: Option<String>,
}

/// The converter path the configuration, environment and search paths
/// determine, or nothing when none was found.
pub open spec fn spec_resolve_ffmpeg(cfg: &WhisperConfig, probe: &FfmpegProbe) -> Option<
    Seq<char>,
> {
    let req = trim_spec(cfg.ffmpeg_path@);
    if req.len() > 0 && probe.requested_is_file {
        Some(req)
    } else if req.len() > 0 && probe.requested_in_path is Some {
        Some(probe.requested_in_path->0@)
    } else if probe.env_binary is Some && probe.env_is_file {
        Some(probe.env_binary->0@)
    } else if probe.env_binary is Some && probe.env_in_path is Some {
        Some(probe.env_in_path->0@)
    } else if probe.ffmpeg_in_path is Some {
        Some(probe.ffmpeg_in_path->0@)
    } else if probe.default_existing is Some {
        Some(probe.default_existing->0@)
    } else if probe.winget is Some {
        Some(probe.winget->0@)
    } else {
        None
    }
}

/// Resolve the audio converter's path; fails exactly when every
/// source came up empty.
pub fn resolve_ffmpeg_path(config: &WhisperConfig, probe: &FfmpegProbe) -> (r: Result<
    String,
    String,
>)
    ensures
        r is Ok <==> spec_resolve_ffmpeg(config, probe) is Some,
        r matches Ok(p) ==> p@ == spec_resolve_ffmpeg(config, probe)->0,
        r matches Err(m) ==> m@ == "ffmpeg not found. Install ffmpeg or set FFMPEG_BINARY."@,
{
    let requested = trim(config.ffmpeg_path.as_str());
    if requested.unicode_len() > 0 {
        if probe.requested_is_file {
            return Ok(requested.to_owned());
        }
        if let Some(f) = &probe.requested_in_path {
            return Ok(f.clone());
        }
    }
    if let Some(env) = &probe.env_binary {
        if probe.env_is_file {
            return Ok(env.clone());
        }
        if let Some(f) = &probe.env_in_path {
            return Ok(f.clone());
        }
    }
    if let Some(f) = &probe.ffmpeg_in_path {
        return Ok(f.clone());
    }
    if let Some(f) = &probe.default_existing {
        return Ok(f.clone());
    }
    if let Some(f) = &probe.winget {
        return Ok(f.clone());
    }
    Err("ffmpeg not found. Install ffmpeg or set FFMPEG_BINARY.".to_owned())
}

/// The converter path suggested to the settings screen, skipping the
/// configuration: the environment override, the search path, then the
/// fixed locations.
pub fn default_ffmpeg_path(probe: &FfmpegProbe) -> (r: Option<String>)
    ensures
        ({
            let v = if probe.env_binary is Some && probe.env_is_file {
                Some(probe.env_binary->0@)
            } else if probe.ffmpeg_in_path is Some {
                Some(probe.ffmpeg_in_path->0@)
            } else if probe.default_existing is Some {
                Some(probe.default_existing->0@)
            } else if probe.winget is Some {
                Some(probe.winget->0@)
            } else {
                None
            };
            match r {
                Some(p) => v == Some(p@),
                None => v is None,
            }
        }),
{
    if let Some(env) = &probe.env_binary {
        if probe.env_is_file {
            return Some(env.clone());
        }
    }
    if let Some(f) = &probe.ffmpeg_in_path {
        return Some(f.clone());
    }
    if let Some(f) = &probe.default_existing {
        return Some(f.clone());
    }
    if let Some(f) = &probe.winget {
        return Some(f.clone());
    }
    None
}

// ---------------------------------------------------------------------------
// File names
// ---------------------------------------------------------------------------

/// The final path component, with both separators recognized.
pub open spec fn path_file_name(p: Seq<char>) -> Seq<char> {
    let a = last_idx(p, '/');
    let b = last_idx(p, '\\');
    let i = if a >= b {
        a
    } else {
        b
    };
    if i >= 0 {
        p.subrange(i + 1, p.len() as int)
    } else {
        p
    }
}

/// The extension of the final path component: what follows its last
/// dot, unless that dot starts the name.
pub open spec fn path_extension(p: Seq<char>) -> Option<Seq<char>> {
    let name = path_file_name(p);
    let d = last_idx(name, '.');
    if d > 0 {
        Some(name.subrange(d + 1, name.len() as int))
    } else {
        None
    }
}

/// Lower-casing of an ASCII letter.
pub open spec fn ascii_lower(c: char) -> char {
    if 0x41 <= c as u32 && c as u32 <= 0x5A {
        ((c as u32 + 0x20) as u32) as char
    } else {
        c
    }
}

/// Whether a path already names a waveform file, by its extension,
/// case-insensitively.
pub open spec fn spec_is_wav(p: Seq<char>) -> bool {
    match path_extension(p) {
        Some(e) => e.len() == 3 && ascii_lower(e[0]) == 'w' && ascii_lower(e[1]) == 'a'
            && ascii_lower(e[2]) == 'v',
        None => false,
    }
}

fn char_lower(c: char) -> (r: char)
    ensures
        r == ascii_lower(c),
{
    let u = c as u32;
    if 0x41 <= u && u <= 0x5A {
        match crate::strutil::char_from_u32(u + 0x20) {
            Some(d) => {
                proof {
                    vstd::utf8::char_u32_cast(d, (u + 0x20) as u32);
                }
                d
            },
            None => {
                proof {
                    assert(false);
                }
                c
            },
        }
    } else {
        c
    }
}

/// Whether the downloaded audio is already in the recognizer's
/// required container, so that no conversion run is needed.
pub fn is_wav(path: &str) -> (r: bool)
    ensures
        r == spec_is_wav(path@),
{
    let n = path.unicode_len();
    proof {
        lemma_last_idx(path@, '/');
        lemma_last_idx(path@, '\\');
    }
    let a = rfind_char(path, '/');
    let b = rfind_char(path, '\\');
    let name: &str = match (a, b) {
        (Some(x), Some(y)) => path.substring_char(if x >= y {
            x + 1
        } else {
            y + 1
        }, n),
        (Some(x), None) => path.substring_char(x + 1, n),
        (None, Some(y)) => path.substring_char(y + 1, n),
        (None, None) => path,
    };
    proof {
        assert(name@ == path_file_name(path@));
        lemma_last_idx(name@, '.');
    }
    let nn = name.unicode_len();
    match rfind_char(name, '.') {
        Some(d) => {
            if d == 0 {
                return false;
            }
            let ext = name.substring_char(d + 1, nn);
            if ext.unicode_len() != 3 {
                return false;
            }
            char_lower(ext.get_char(0)) == 'w' && char_lower(ext.get_char(1)) == 'a' && char_lower(
                ext.get_char(2),
            ) == 'v'
        },
        None => false,
    }
}

/// A hook where a track time could be cleaned before use; the
/// recognized notations pass through unchanged, and so does
/// everything else.
pub fn sanitize_time(value: &str) -> (r: String)
    ensures
        r@ == value@,
{
    value.to_owned()
}

} // verus!
