//! Path handling on plain strings: components, joining, tilde expansion,
//! and resolving configured locations against the configuration file.

use vstd::prelude::*;

verus! {

/// The final component of a path, as `std::path::Path::file_name` finds it.
pub uninterp spec fn file_name_of(path: Seq<char>) -> Option<Seq<char>>;

/// The extension of a path, as `std::path::Path::extension` finds it.
pub uninterp spec fn extension_of(path: Seq<char>) -> Option<Seq<char>>;

/// The parent of a path, as `std::path::Path::parent` finds it.
pub uninterp spec fn parent_of(path: Seq<char>) -> Option<Seq<char>>;

/// A Unix path is absolute when it begins at the root.
pub open spec fn is_absolute(path: Seq<char>) -> bool {
    path.len() > 0 && path[0] == '/'
}

/// `rel` pushed onto `base`: an absolute `rel` replaces `base`; otherwise a
/// separator goes between them unless `base` is empty or already ends in one.
pub open spec fn joined(base: Seq<char>, rel: Seq<char>) -> Seq<char> {
    if is_absolute(rel) {
        rel
    } else if base.len() == 0 || base.last() == '/' {
        base + rel
    } else {
        base + seq!['/'] + rel
    }
}

/// Relies on `Path::file_name`: the final component, when the path has one.
#[verifier::external_body]
pub(crate) fn file_name(path: &str) -> (r: Option<String>)
    ensures
        r is Some <==> file_name_of(path@) is Some,
        r matches Some(n) ==> file_name_of(path@) == Some(n@),
{
    std::path::Path::new(path).file_name().map(|n| n.to_string_lossy().into_owned())
}

/// Relies on `Path::extension`: the extension, when the final component has one.
#[verifier::external_body]
fn extension(path: &str) -> (r: Option<String>)
    ensures
        r is Some <==> extension_of(path@) is Some,
        r matches Some(e) ==> extension_of(path@) == Some(e@),
        file_name_of(path@) is None ==> r is None,
{
    std::path::Path::new(path).extension().map(|e| e.to_string_lossy().into_owned())
}

/// The extension of a path, empty when it has none.
pub open spec fn extension_text(path: Seq<char>) -> Seq<char> {
    match extension_of(path) {
        Some(e) => e,
        None => Seq::empty(),
    }
}

/// The extension of `path`, or the empty string when it has none.
pub fn extension_or_empty(path: &str) -> (r: String)
    ensures
        r@ == extension_text(path@),
{
    match extension(path) {
        Some(e) => e,
        None => String::new(),
    }
}

/// Relies on `Path::parent`: the path without its final component.
#[verifier::external_body]
fn parent(path: &str) -> (r: Option<String>)
    ensures
        r is Some <==> parent_of(path@) is Some,
        r matches Some(p) ==> parent_of(path@) == Some(p@),
{
    std::path::Path::new(path).parent().map(|p| p.to_string_lossy().into_owned())
}

/// Relies on `PathBuf::push` (Unix): `rel` joined onto `base`.
#[verifier::external_body]
fn join(base: &str, rel: &str) -> (r: String)
    ensures
        r@ == joined(base@, rel@),
{
    let mut buf = std::path::PathBuf::from(base);
    buf.push(rel);
    buf.to_string_lossy().into_owned()
}

/// Relies on `shellexpand::tilde`: a leading `~` may become the home
/// directory; a path that does not begin with `~` comes back unchanged.
#[verifier::external_body]
pub fn expand_path(path: &str) -> (r: String)
    ensures
        !(path@.len() > 0 && path@[0] == '~') ==> r@ == path@,
{
    shellexpand::tilde(path).into_owned()
}

/// Why a configured location could not be resolved.
#[derive(Debug, Clone, Copy, PartialEq, Eq)]
pub enum ConfigError {
    /// The location is relative and the configuration file has no parent
    /// directory to resolve it against.
    NoParentForRelative,
}

/// Where an already expanded configured location lies: joined onto the
/// configuration file's directory when it has one, else itself when absolute.
pub open spec fn resolved(config_path: Seq<char>, expanded: Seq<char>) -> Result<
    Seq<char>,
    ConfigError,
> {
    match parent_of(config_path) {
        Some(dir) => Ok(joined(dir, expanded)),
        None => if is_absolute(expanded) {
            Ok(expanded)
        } else {
            Err(ConfigError::NoParentForRelative)
        },
    }
}

/// Resolves an already expanded location against the configuration file.
pub fn resolve_expanded(config_path: &str, expanded: &str) -> (r: Result<String, ConfigError>)
    ensures
        r is Ok <==> resolved(config_path@, expanded@) is Ok,
        r matches Ok(p) ==> resolved(config_path@, expanded@) == Ok::<Seq<char>, ConfigError>(p@),
        r matches Err(e) ==> resolved(config_path@, expanded@) == Err::<Seq<char>, ConfigError>(e),
{
    match parent(config_path) {
        Some(dir) => Ok(join(dir.as_str(), expanded)),
        None => {
            if !expanded.is_empty() && starts_at_root(expanded) {
                Ok(expanded.to_owned())
            } else {
                Err(ConfigError::NoParentForRelative)
            }
        },
    }
}

/// Whether a non-empty path begins with `/`.
fn starts_at_root(path: &str) -> (r: bool)
    requires
        path@.len() > 0,
    ensures
        r == is_absolute(path@),
{
    let mut chars = path.chars();
    match chars.next() {
        Some(c) => c == '/',
        None => false,
    }
}

/// Expands a leading `~` in a configured location, then resolves it against
/// the configuration file.
pub fn resolve_config_path(config_path: &str, path: &str) -> (r: Result<String, ConfigError>)
    ensures
        !(path@.len() > 0 && path@[0] == '~') ==> {
            &&& r is Ok <==> resolved(config_path@, path@) is Ok
            &&& r matches Ok(p) ==> resolved(config_path@, path@) == Ok::<
                Seq<char>,
                ConfigError,
            >(p@)
        },
        exists|e: Seq<char>|
            {
                &&& (r is Ok <==> resolved(config_path@, e) is Ok)
                &&& (r matches Ok(p) ==> resolved(config_path@, e) == Ok::<
                    Seq<char>,
                    ConfigError,
                >(p@))
            },
{
    let expanded = expand_path(path);
    let r = resolve_expanded(config_path, expanded.as_str());
    assert((r is Ok <==> resolved(config_path@, expanded@) is Ok) && (r matches Ok(p) ==> resolved(
        config_path@,
        expanded@,
    ) == Ok::<Seq<char>, ConfigError>(p@)));
    r
}

/// The tool's settings.
#[derive(Debug, Clone)]
pub struct Config {
    /// The content-store directory, relative to the configuration file's directory.
    pub storage_path: String,
    /// Where the state file lies, relative to the configuration file's directory.
    pub state_path: Option<String>,
    /// Whether staging should fingerprint files.
    pub hash_added_files: bool,
    /// How long a staged set may sit before it is discarded.
    pub registration_delay_limit: u64,
}

impl Config {
    /// The content-store directory, resolved against the configuration file.
    pub fn storage_path(&self, config_path: &str) -> (r: Result<String, ConfigError>)
        ensures
            !(self.storage_path@.len() > 0 && self.storage_path@[0] == '~') ==> {
                &&& r is Ok <==> resolved(config_path@, self.storage_path@) is Ok
                &&& r matches Ok(p) ==> resolved(config_path@, self.storage_path@) == Ok::<
                    Seq<char>,
                    ConfigError,
                >(p@)
            },
            exists|e: Seq<char>|
                {
                    &&& (r is Ok <==> resolved(config_path@, e) is Ok)
                    &&& (r matches Ok(p) ==> resolved(config_path@, e) == Ok::<
                        Seq<char>,
                        ConfigError,
                    >(p@))
                },
    {
        resolve_config_path(config_path, self.storage_path.as_str())
    }
}

} // verus!
