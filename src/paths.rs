//! Where configuration files are looked for, and which paths are refused.
//!
//! Candidates come, in increasing priority, from the system configuration
//! directory and from the user's, each searched for `config.<ext>` and
//! `<app>.<ext>` with `ext` one of `toml`, `json`, `ini`. A file named by
//! the operator is added last, as required, once its path has passed the
//! security check.

use crate::coerce::{chars_of, eq_lower, lower_seq};
use crate::error::{ConfigDirType, QuantumConfigError};
use crate::meta::QuantumConfigAppMeta;
use crate::providers::file_reader::FileReader;
use vstd::prelude::*;
use vstd::string::*;

verus! {

broadcast use vstd::std_specs::vec::group_vec_axioms;

/// What `Path::extension` gives for the path text `p`.
pub uninterp spec fn extension_of(p: Seq<char>) -> Option<Seq<char>>;

/// Relies on `Path::extension`: the part of the file name after its last
/// dot, which depends on the path text alone.
#[verifier::external_body]
pub(crate) fn path_extension(p: &str) -> (r: Option<String>)
    ensures
        match r {
            Some(e) => extension_of(p@) == Some(e@),
            None => extension_of(p@) is None,
        },
{
    match std::path::Path::new(p).extension() {
        Some(e) => Some(e.to_string_lossy().into_owned()),
        None => None,
    }
}

/// Relies on `Path::is_file`: whether a regular file is at `p` right now.
#[verifier::external_body]
pub(crate) fn path_is_file(p: &str) -> (r: bool) {
    std::path::Path::new(p).is_file()
}

/// Relies on `Path::exists`: whether anything is at `p` right now.
#[verifier::external_body]
fn path_exists(p: &str) -> (r: bool) {
    std::path::Path::new(p).exists()
}

/// Relies on `directories::ProjectDirs::from` and `config_dir`: the user's
/// configuration directory for `app_name`, where a home directory is known.
#[verifier::external_body]
fn user_config_dir(app_name: &str) -> (r: Option<String>) {
    match directories::ProjectDirs::from("", "", app_name) {
        Some(d) => Some(d.config_dir().to_string_lossy().into_owned()),
        None => None,
    }
}

/// Format of a configuration file.
#[derive(Debug, Clone, Copy, PartialEq, Eq, Structural)]
pub enum ConfigFileType {
    Toml,
    Json,
    Ini,
}

/// The extension that files of type `t` carry.
pub open spec fn extension_spec(t: ConfigFileType) -> Seq<char> {
    match t {
        ConfigFileType::Toml => "toml"@,
        ConfigFileType::Json => "json"@,
        ConfigFileType::Ini => "ini"@,
    }
}

/// The type whose extension `ext` is, in any case.
pub open spec fn type_of_extension(ext: Seq<char>) -> Option<ConfigFileType> {
    let l = lower_seq(ext);
    if l == "toml"@ {
        Some(ConfigFileType::Toml)
    } else if l == "json"@ {
        Some(ConfigFileType::Json)
    } else if l == "ini"@ {
        Some(ConfigFileType::Ini)
    } else {
        None
    }
}

/// The type that the extension of path `p` names, if any.
pub open spec fn type_of_path(p: Seq<char>) -> Option<ConfigFileType> {
    match extension_of(p) {
        Some(e) => type_of_extension(e),
        None => None,
    }
}

impl ConfigFileType {
    pub fn extension(&self) -> (r: &'static str)
        ensures
            r@ == extension_spec(*self),
    {
        match self {
            ConfigFileType::Toml => "toml",
            ConfigFileType::Json => "json",
            ConfigFileType::Ini => "ini",
        }
    }

    /// The type with extension `ext`, compared without regard to case.
    pub fn from_extension(ext: &str) -> (r: Option<Self>)
        ensures
            r == type_of_extension(ext@),
    {
        let cs = chars_of(ext);
        if eq_lower(&cs, "toml") {
            Some(ConfigFileType::Toml)
        } else if eq_lower(&cs, "json") {
            Some(ConfigFileType::Json)
        } else if eq_lower(&cs, "ini") {
            Some(ConfigFileType::Ini)
        } else {
            None
        }
    }
}

/// A configuration file to read.
#[derive(Debug, Clone, PartialEq, Eq)]
pub struct ConfigFilePath {
    pub path: String,
    pub file_type: ConfigFileType,
    /// A required file that is missing is an error; an optional one is
    /// skipped.
    pub is_required: bool,
}

impl ConfigFilePath {
    pub fn new(path: String, file_type: ConfigFileType, is_required: bool) -> (r: Self)
        ensures
            r.path == path,
            r.file_type == file_type,
            r.is_required == is_required,
    {
        ConfigFilePath { path, file_type, is_required }
    }

    /// Whether a regular file is at the path right now.
    pub fn file_exists(&self) -> bool {
        path_is_file(self.path.as_str())
    }
}

/// A path separator, for either platform.
pub open spec fn is_sep(c: char) -> bool {
    c == '/' || c == '\\'
}

/// A `..` segment starts at position `i` of `p`.
pub open spec fn dotdot_at(p: Seq<char>, i: int) -> bool {
    &&& 0 <= i
    &&& i + 2 <= p.len()
    &&& p[i] == '.'
    &&& p[i + 1] == '.'
    &&& (i == 0 || is_sep(p[i - 1]))
    &&& (i + 2 == p.len() || is_sep(p[i + 2]))
}

/// A path that climbs out of where it starts, or holds a NUL.
pub open spec fn path_unsafe(p: Seq<char>) -> bool {
    p.contains('\0') || exists|i: int| dotdot_at(p, i)
}

fn is_sep_char(c: char) -> (r: bool)
    ensures
        r == is_sep(c),
{
    c == '/' || c == '\\'
}

/// Refuses a path with a `..` segment (with `/` or `\` as separator) or a
/// NUL, before anything looks at the file system. Absolute paths and
/// relative paths without such segments pass.
pub fn validate_path_security(path: &str) -> (r: Result<(), QuantumConfigError>)
    ensures
        r is Ok <==> !path_unsafe(path@),
        r matches Err(e) ==> e is SecurityViolation,
{
    let cs = chars_of(path);
    let n = cs.len();
    let mut i: usize = 0;
    while i < n
        invariant
            cs@ == path@,
            n == cs.len(),
            i <= n,
            forall|j: int| 0 <= j < i ==> cs@[j] != '\0' && !dotdot_at(cs@, j),
        decreases n - i,
    {
        if cs[i] == '\0' {
            return Err(
                QuantumConfigError::SecurityViolation {
                    message: String::from_str("path contains a NUL byte"),
                },
            );
        }
        if n - i >= 2 && cs[i] == '.' && cs[i + 1] == '.' && (i == 0 || is_sep_char(cs[i - 1])) && (
        n - i == 2 || is_sep_char(cs[i + 2])) {
            assert(dotdot_at(path@, i as int));
            return Err(
                QuantumConfigError::SecurityViolation {
                    message: String::from_str("path traversal is not allowed in a configuration path"),
                },
            );
        }
        i = i + 1;
    }
    assert(!exists|j: int| dotdot_at(path@, j));
    Ok(())
}

/// `dir` joined with the file name `name`.
pub open spec fn join_spec(dir: Seq<char>, name: Seq<char>) -> Seq<char> {
    if dir.len() > 0 && dir.last() == '/' {
        dir + name
    } else {
        dir + "/"@ + name
    }
}

fn join(dir: &str, name: &str) -> (r: String)
    ensures
        r@ == join_spec(dir@, name@),
{
    let d = chars_of(dir);
    if d.len() > 0 && d[d.len() - 1] == '/' {
        String::from_str(dir).concat(name)
    } else {
        String::from_str(dir).concat("/").concat(name)
    }
}

/// The file type at position `e` of the search order.
pub open spec fn type_at(e: int) -> ConfigFileType {
    if e == 0 {
        ConfigFileType::Toml
    } else if e == 1 {
        ConfigFileType::Json
    } else {
        ConfigFileType::Ini
    }
}

/// The candidate at position `k` of the search order over `dirs` for
/// application `app`: directories first, then the stems `config` and `app`,
/// then the types.
pub open spec fn candidate_path(dirs: Seq<Seq<char>>, app: Seq<char>, k: int) -> Seq<char> {
    let d = k / 6;
    let stem = if (k % 6) / 3 == 0 {
        "config"@
    } else {
        app
    };
    join_spec(dirs[d], stem + "."@ + extension_spec(type_at(k % 3)))
}

/// The texts of a list of directories.
pub open spec fn dir_views(dirs: Seq<String>) -> Seq<Seq<char>> {
    dirs.map_values(|d: String| d@)
}

/// `c` is the candidate at position `k` of the search order.
pub open spec fn candidate_ok(c: ConfigFilePath, dirs: Seq<Seq<char>>, app: Seq<char>, k: int) -> bool {
    &&& c.path@ == candidate_path(dirs, app, k)
    &&& c.file_type == type_at(k % 3)
    &&& !c.is_required
}

/// Every file that may hold configuration for `app_name` in the directories
/// `dirs` (lowest priority first), in increasing priority, none of them
/// required.
pub fn config_file_candidates(dirs: &Vec<String>, app_name: &str) -> (r: Vec<ConfigFilePath>)
    requires
        dirs.len() * 6 <= usize::MAX,
    ensures
        r@.len() == dirs@.len() * 6,
        forall|k: int|
            0 <= k < r@.len() ==> candidate_ok(#[trigger] r@[k], dir_views(dirs@), app_name@, k),
{
    let ghost ds = dir_views(dirs@);
    let types = [ConfigFileType::Toml, ConfigFileType::Json, ConfigFileType::Ini];
    let mut r: Vec<ConfigFilePath> = Vec::new();
    let mut d: usize = 0;
    while d < dirs.len()
        invariant
            ds == dir_views(dirs@),
            dirs.len() * 6 <= usize::MAX,
            types@ == seq![ConfigFileType::Toml, ConfigFileType::Json, ConfigFileType::Ini],
            d <= dirs.len(),
            r@.len() == d * 6,
            forall|k: int|
                0 <= k < r@.len() ==> candidate_ok(#[trigger] r@[k], ds, app_name@, k),
        decreases dirs.len() - d,
    {
        let mut s: usize = 0;
        while s < 2
            invariant
                ds == dir_views(dirs@),
                dirs.len() * 6 <= usize::MAX,
                types@ == seq![ConfigFileType::Toml, ConfigFileType::Json, ConfigFileType::Ini],
                d < dirs.len(),
                s <= 2,
                r@.len() == d * 6 + s * 3,
                forall|k: int|
                    0 <= k < r@.len() ==> candidate_ok(#[trigger] r@[k], ds, app_name@, k),
            decreases 2 - s,
        {
            let mut e: usize = 0;
            while e < 3
                invariant
                    ds == dir_views(dirs@),
                    dirs.len() * 6 <= usize::MAX,
                    types@ == seq![
                        ConfigFileType::Toml,
                        ConfigFileType::Json,
                        ConfigFileType::Ini,
                    ],
                    d < dirs.len(),
                    s < 2,
                    e <= 3,
                    r@.len() == d * 6 + s * 3 + e,
                    forall|k: int|
                        0 <= k < r@.len() ==> candidate_ok(#[trigger] r@[k], ds, app_name@, k),
                decreases 3 - e,
            {
                let t = types[e];
                let stem = if s == 0 {
                    String::from_str("config")
                } else {
                    String::from_str(app_name)
                };
                let file_name = stem.concat(".").concat(t.extension());
                let path = join(dirs[d].as_str(), file_name.as_str());
                let ghost k = r@.len() as int;
                assert(k / 6 == d && (k % 6) / 3 == s && k % 3 == e) by (nonlinear_arith)
                    requires
                        k == d * 6 + s * 3 + e,
                        s < 2,
                        e < 3,
                        d >= 0,
                ;
                r.push(ConfigFilePath::new(path, t, false));
                e = e + 1;
            }
            s = s + 1;
        }
        d = d + 1;
    }
    r
}

/// The directories to scan, lowest priority first, given what the lookups
/// answered: `user` is the user's configuration directory where a home
/// directory is known, and the flags say whether each directory exists. The
/// system directory `/etc/<app>` can be named wherever the application has a
/// name; `None` where neither directory can be named at all.
pub open spec fn dirs_spec(
    app: Seq<char>,
    user: Option<Seq<char>>,
    system_exists: bool,
    user_exists: bool,
) -> Option<Seq<Seq<char>>> {
    if app.len() == 0 && user is None {
        None
    } else {
        let s = if app.len() > 0 && system_exists {
            seq!["/etc/"@ + app]
        } else {
            Seq::empty()
        };
        let u = match user {
            Some(d) => if user_exists {
                seq![d]
            } else {
                Seq::empty()
            },
            None => Seq::empty(),
        };
        Some(s + u)
    }
}

/// The text of an optional string.
pub open spec fn opt_text(o: Option<String>) -> Option<Seq<char>> {
    match o {
        Some(s) => Some(s@),
        None => None,
    }
}

/// The system configuration directory of application `app_name`.
pub fn system_config_dir(app_name: &str) -> (r: String)
    ensures
        r@ == "/etc/"@ + app_name@,
{
    String::from_str("/etc/").concat(app_name)
}

/// The directories to scan (see `dirs_spec`); `ConfigDirNotFound` where
/// neither directory can be named.
pub fn select_config_dirs(
    app_name: &str,
    user: Option<String>,
    system_exists: bool,
    user_exists: bool,
) -> (r: Result<Vec<String>, QuantumConfigError>)
    ensures
        match dirs_spec(app_name@, opt_text(user), system_exists, user_exists) {
            None => r == Err::<Vec<String>, QuantumConfigError>(
                QuantumConfigError::ConfigDirNotFound { dir_type: ConfigDirType::User, expected_path: None },
            ),
            Some(ds) => r matches Ok(v) && dir_views(v@) == ds,
        },
{
    let named = app_name.unicode_len() > 0;
    if !named && user.is_none() {
        return Err(
            QuantumConfigError::ConfigDirNotFound { dir_type: ConfigDirType::User, expected_path: None },
        );
    }
    let mut dirs: Vec<String> = Vec::new();
    if named && system_exists {
        dirs.push(system_config_dir(app_name));
    }
    match user {
        Some(u) => {
            if user_exists {
                dirs.push(u);
            }
        },
        None => {},
    }
    assert(dir_views(dirs@) =~= dirs_spec(app_name@, opt_text(user), system_exists, user_exists)->0);
    Ok(dirs)
}

/// The configuration directories of `app_name` that exist, lowest priority
/// first: `/etc/<app_name>`, then the user's configuration directory. Fails
/// with `ConfigDirNotFound` only where neither can be named.
pub fn get_config_directories(app_name: &str) -> (r: Result<Vec<String>, QuantumConfigError>)
    ensures
        app_name@.len() > 0 ==> r is Ok,
        r matches Err(e) ==> e is ConfigDirNotFound,
        r matches Ok(d) ==> exists|u: Option<Seq<char>>, se: bool, ue: bool|
            #[trigger] dirs_spec(app_name@, u, se, ue) == Some(dir_views(d@)),
{
    let user = user_config_dir(app_name);
    let system_exists = app_name.unicode_len() > 0 && path_exists(
        system_config_dir(app_name).as_str(),
    );
    let user_exists = match &user {
        Some(u) => path_exists(u.as_str()),
        None => false,
    };
    let ghost ut = opt_text(user);
    let r = select_config_dirs(app_name, user, system_exists, user_exists);
    proof {
        if r is Ok {
            assert(dirs_spec(app_name@, ut, system_exists, user_exists) == Some(dir_views(r->Ok_0@)));
        }
    }
    r
}

/// The elements of `cs` whose flag in `ps` is set, in order.
pub open spec fn kept<T>(cs: Seq<T>, ps: Seq<bool>) -> Seq<T>
    decreases cs.len(),
{
    if cs.len() == 0 || ps.len() == 0 {
        Seq::empty()
    } else {
        let rest = kept(cs.drop_last(), ps.drop_last());
        if ps.last() {
            rest.push(cs.last())
        } else {
            rest
        }
    }
}

/// The kept elements sit at increasing positions of `cs` whose flags are
/// set.
pub proof fn lemma_kept_positions<T>(cs: Seq<T>, ps: Seq<bool>) -> (idx: Seq<int>)
    requires
        cs.len() == ps.len(),
    ensures
        idx.len() == kept(cs, ps).len(),
        forall|k: int|
            0 <= k < idx.len() ==> 0 <= #[trigger] idx[k] < cs.len() && kept(cs, ps)[k]
                == cs[idx[k]] && ps[idx[k]],
        forall|k: int, l: int| 0 <= k < l < idx.len() ==> idx[k] < idx[l],
    decreases cs.len(),
{
    if cs.len() == 0 {
        Seq::empty()
    } else {
        let rest = lemma_kept_positions(cs.drop_last(), ps.drop_last());
        if ps.last() {
            rest.push(cs.len() - 1)
        } else {
            rest
        }
    }
}

/// The candidates for which `present` holds, in order.
pub fn keep_present(candidates: Vec<ConfigFilePath>, present: &Vec<bool>) -> (r: Vec<
    ConfigFilePath,
>)
    requires
        present.len() == candidates.len(),
    ensures
        r@ == kept(candidates@, present@),
{
    let ghost cs = candidates@;
    let n = present.len();
    let mut rest = candidates;
    let mut r: Vec<ConfigFilePath> = Vec::new();
    let mut i: usize = 0;
    assert(cs.subrange(0, 0) =~= Seq::<ConfigFilePath>::empty());
    while i < n
        invariant
            n == present.len(),
            cs.len() == n,
            i <= n,
            rest@ == cs.subrange(i as int, n as int),
            r@ == kept(cs.subrange(0, i as int), present@.subrange(0, i as int)),
        decreases n - i,
    {
        let c = rest.remove(0);
        assert(cs.subrange(0, i + 1).drop_last() =~= cs.subrange(0, i as int));
        assert(present@.subrange(0, i + 1).drop_last() =~= present@.subrange(0, i as int));
        if present[i] {
            r.push(c);
        }
        i = i + 1;
        assert(rest@ =~= cs.subrange(i as int, n as int));
    }
    assert(cs.subrange(0, n as int) =~= cs);
    assert(present@.subrange(0, n as int) =~= present@);
    r
}

/// The existing candidates, in search order, for application `app` over
/// directories `dirs`: the files lie at increasing positions of the search
/// order.
pub open spec fn existing_candidates(files: Seq<ConfigFilePath>, dirs: Seq<Seq<char>>, app: Seq<char>) -> bool {
    exists|idx: Seq<int>|
        #![trigger idx.len()]
        idx.len() == files.len() && (forall|k: int|
            0 <= k < idx.len() ==> 0 <= #[trigger] idx[k] < dirs.len() * 6 && candidate_ok(
                files[k],
                dirs,
                app,
                idx[k],
            )) && (forall|k: int, l: int| 0 <= k < l < idx.len() ==> idx[k] < idx[l])
}

/// `files` are the existing candidates of at most two directories.
pub open spec fn found_in_config_dirs(files: Seq<ConfigFilePath>, app: Seq<char>) -> bool {
    exists|dirs: Seq<Seq<char>>| dirs.len() <= 2 && #[trigger] existing_candidates(files, dirs, app)
}

/// Every configuration file of the application that exists now, in
/// increasing priority, none of them required. Fails only where no
/// configuration directory can be named at all; directories without a
/// matching file give an empty list.
pub fn resolve_config_files(app_meta: &QuantumConfigAppMeta) -> (r: Result<
    Vec<ConfigFilePath>,
    QuantumConfigError,
>)
    ensures
        app_meta.app_name@.len() > 0 ==> r is Ok,
        r matches Err(e) ==> e is ConfigDirNotFound,
        r matches Ok(files) ==> found_in_config_dirs(files@, app_meta.app_name@),
{
    let dirs = match get_config_directories(app_meta.app_name.as_str()) {
        Ok(d) => d,
        Err(e) => {
            return Err(e);
        },
    };
    proof {
        let (u, se, ue) = choose|u: Option<Seq<char>>, se: bool, ue: bool|
            #[trigger] dirs_spec(app_meta.app_name@, u, se, ue) == Some(dir_views(dirs@));
        assert(dirs_spec(app_meta.app_name@, u, se, ue) == Some(dir_views(dirs@)));
        assert(dir_views(dirs@).len() == dirs@.len());
        assert(dirs@.len() <= 2);
    }
    let candidates = config_file_candidates(&dirs, app_meta.app_name.as_str());
    let mut present: Vec<bool> = Vec::new();
    let mut i: usize = 0;
    while i < candidates.len()
        invariant
            i <= candidates.len(),
            present@.len() == i,
        decreases candidates.len() - i,
    {
        present.push(candidates[i].file_exists());
        i = i + 1;
    }
    let ghost cs = candidates@;
    let ghost ds = dir_views(dirs@);
    let files = keep_present(candidates, &present);
    proof {
        let idx = lemma_kept_positions(cs, present@);
        assert(existing_candidates(files@, ds, app_meta.app_name@)) by {
            assert forall|k: int| 0 <= k < idx.len() implies 0 <= #[trigger] idx[k] < ds.len() * 6
                && candidate_ok(files@[k], ds, app_meta.app_name@, idx[k]) by {
                assert(candidate_ok(cs[idx[k]], ds, app_meta.app_name@, idx[k]));
            }
        }
        assert(ds.len() <= 2);
        assert(found_in_config_dirs(files@, app_meta.app_name@));
    }
    Ok(files)
}

/// The outcome of adding the operator's file at `path` once its path has
/// passed the security check, given whether a regular file is there.
pub fn register_specified_file(
    config_files: &mut Vec<ConfigFilePath>,
    file_path: String,
    present: bool,
) -> (r: Result<(), QuantumConfigError>)
    ensures
        !present ==> (r matches Err(e) && e == (QuantumConfigError::SpecifiedFileNotFound {
            path: file_path,
        })),
        present && type_of_path(file_path@) is None ==> (r matches Err(e) && e == (
        QuantumConfigError::UnsupportedFormat { path: file_path })),
        present && type_of_path(file_path@) is Some ==> r is Ok,
        r is Ok ==> final(config_files)@ == old(config_files)@.push(
            ConfigFilePath {
                path: file_path,
                file_type: type_of_path(file_path@)->0,
                is_required: true,
            },
        ),
        r is Err ==> final(config_files)@ == old(config_files)@,
{
    if !present {
        return Err(QuantumConfigError::SpecifiedFileNotFound { path: file_path });
    }
    let file_type = match path_extension(file_path.as_str()) {
        Some(ext) => ConfigFileType::from_extension(ext.as_str()),
        None => None,
    };
    match file_type {
        Some(t) => {
            config_files.push(ConfigFilePath::new(file_path, t, true));
            Ok(())
        },
        None => Err(QuantumConfigError::UnsupportedFormat { path: file_path }),
    }
}

/// Adds the file that the operator named (e.g. with `--config`), as
/// required. An unsafe path fails with `SecurityViolation` before the file
/// system is consulted; a missing file fails with `SpecifiedFileNotFound`;
/// an extension that names no format fails with `UnsupportedFormat`.
pub fn add_specified_config_file(config_files: &mut Vec<ConfigFilePath>, file_path: String) -> (r:
    Result<(), QuantumConfigError>)
    ensures
        path_unsafe(file_path@) ==> (r matches Err(e) && e is SecurityViolation),
        r matches Err(e) && e is SecurityViolation ==> path_unsafe(file_path@),
        r matches Err(e) ==> e is SecurityViolation || e == (
        QuantumConfigError::SpecifiedFileNotFound { path: file_path }) || (e == (
        QuantumConfigError::UnsupportedFormat { path: file_path }) && type_of_path(
            file_path@,
        ) is None),
        r is Ok ==> final(config_files)@ == old(config_files)@.push(
            ConfigFilePath {
                path: file_path,
                file_type: type_of_path(file_path@)->0,
                is_required: true,
            },
        ),
        r is Err ==> final(config_files)@ == old(config_files)@,
{
    match validate_path_security(file_path.as_str()) {
        Ok(()) => {},
        Err(e) => {
            return Err(e);
        },
    }
    let present = path_is_file(file_path.as_str());
    register_specified_file(config_files, file_path, present)
}

/// As [`add_specified_config_file`], with `reader` deciding whether the
/// file exists; `reader` is not consulted for an unsafe path.
pub fn add_specified_config_file_with<R: FileReader>(
    config_files: &mut Vec<ConfigFilePath>,
    file_path: String,
    reader: &R,
) -> (r: Result<(), QuantumConfigError>)
    ensures
        path_unsafe(file_path@) ==> (r matches Err(e) && e is SecurityViolation),
        r matches Err(e) && e is SecurityViolation ==> path_unsafe(file_path@),
        r matches Err(e) ==> e is SecurityViolation || e == (
        QuantumConfigError::SpecifiedFileNotFound { path: file_path }) || (e == (
        QuantumConfigError::UnsupportedFormat { path: file_path }) && type_of_path(
            file_path@,
        ) is None),
        r is Ok ==> final(config_files)@ == old(config_files)@.push(
            ConfigFilePath {
                path: file_path,
                file_type: type_of_path(file_path@)->0,
                is_required: true,
            },
        ),
        r is Err ==> final(config_files)@ == old(config_files)@,
{
    match validate_path_security(file_path.as_str()) {
        Ok(()) => {},
        Err(e) => {
            return Err(e);
        },
    }
    let present = reader.file_exists(file_path.as_str());
    register_specified_file(config_files, file_path, present)
}

} // verus!
