//! The persistence boundary: where the configuration file lives, the
//! error model, and the translation between file contents and
//! collections. Reading and writing the file itself is left to the
//! caller; every decision about its contents is made — and verified —
//! here.

use vstd::prelude::*;
use vstd::string::StringExecFns;
use crate::bookmarks::BookmarkCollection;
use crate::bookmarks::wf;
use crate::codec;

verus! {

/// Why loading or saving the configuration cannot proceed. All four are
/// fatal environment or data-corruption conditions; "alias not found"
/// and an empty listing are ordinary outcomes, not errors.
#[derive(Clone, Copy, PartialEq, Eq, Structural, Debug)]
pub enum StoreError {
    /// The user's home directory cannot be determined.
    HomeDirNotFound,
    /// The directory holding the configuration file cannot be created.
    ConfigDirCreateFailed,
    /// The configuration cannot be rendered or written to its file.
    ConfigWriteFailed,
    /// The configuration file exists but its contents are malformed.
    ConfigParseFailed,
}

impl StoreError {
    /// A human-readable description, for the boundary that reports and
    /// exits.
    pub fn message(&self) -> (r: &'static str)
        ensures
            *self == StoreError::HomeDirNotFound ==> r@ == ("Failed to find home directory")@,
            *self == StoreError::ConfigDirCreateFailed ==> r@ == (
            "Failed to create config directory")@,
            *self == StoreError::ConfigWriteFailed ==> r@ == ("Failed to write to config file")@,
            *self == StoreError::ConfigParseFailed ==> r@ == ("Failed to parse config file")@,
    {
        match self {
            StoreError::HomeDirNotFound => "Failed to find home directory",
            StoreError::ConfigDirCreateFailed => "Failed to create config directory",
            StoreError::ConfigWriteFailed => "Failed to write to config file",
            StoreError::ConfigParseFailed => "Failed to parse config file",
        }
    }
}

/// The fixed location of the configuration file, relative to the home
/// directory: a dedicated hidden subdirectory plus a fixed filename.
pub open spec fn config_path_suffix() -> Seq<char> {
    ("/.pomelo/config.toml")@
}

/// The configuration file's path below the given home directory.
pub fn config_path_for(home: &str) -> (r: String)
    ensures
        r@ == home@ + config_path_suffix(),
{
    home.to_owned().concat("/.pomelo/config.toml")
}

/// Relies on `dirs::home_dir`: the user's home directory, when the
/// environment defines one, and `None` otherwise — the crate returns
/// `None` rather than an empty path (here also for a path that is not
/// Unicode).
#[verifier::external_body]
fn home_dir_string() -> (r: Option<String>)
    ensures
        r matches Some(h) ==> h@.len() > 0,
{
    dirs::home_dir().and_then(|p| p.to_str().map(|s| s.to_string()))
}

/// The configuration file's path for this process: the fixed suffix
/// below the user's home directory. An undeterminable home directory is
/// the one unrecoverable environment error of path resolution.
pub fn resolve_config_path() -> (r: Result<String, StoreError>)
    ensures
        r matches Ok(p) ==> exists|h: Seq<char>|
            h.len() > 0 && p@ == h + config_path_suffix(),
        r matches Err(e) ==> e == StoreError::HomeDirNotFound,
{
    match home_dir_string() {
        Some(h) => {
            let p = config_path_for(h.as_str());
            proof {
                assert(h@.len() > 0 && p@ == h@ + config_path_suffix());
            }
            Ok(p)
        },
        None => Err(StoreError::HomeDirNotFound),
    }
}

/// The collection a file's contents denote. An absent (or unreadable)
/// file — `None` — means "no bookmarks yet", not an error; contents that
/// do not parse are a fatal error.
pub fn load_from_contents(contents: Option<&str>) -> (r: Result<
    BookmarkCollection,
    StoreError,
>)
    ensures
        contents is None ==> (r matches Ok(c) && c@ == Seq::<(Seq<char>, Seq<char>)>::empty()),
        contents matches Some(s) ==> (match r {
            Ok(c) => codec::spec_parse(s@) == Some(c@) && codec::serializable(c@),
            Err(e) => codec::spec_parse(s@) is None && e == StoreError::ConfigParseFailed,
        }),
        r matches Ok(c) ==> wf(c@),
{
    match contents {
        None => Ok(BookmarkCollection::new()),
        Some(s) => match codec::from_config_text(s) {
            Some(c) => {
                proof {
                    assert forall|i: int|
                        0 <= i < c@.len() implies c@[i].0.len() > 0 && c@[i].1.len() > 0 by {
                        assert(codec::plain_text(c@[i].0) && codec::plain_text(c@[i].1));
                    }
                }
                Ok(c)
            },
            None => Err(StoreError::ConfigParseFailed),
        },
    }
}

/// The text to write back for a collection; a collection whose fields
/// the format cannot hold is refused as a write failure.
pub fn save_to_text(c: &BookmarkCollection) -> (r: Result<String, StoreError>)
    ensures
        r matches Ok(out) ==> codec::serializable(c@) && out@ == codec::spec_serialize(c@),
        r matches Err(e) ==> !codec::serializable(c@) && e == StoreError::ConfigWriteFailed,
{
    match codec::to_config_text(c) {
        Some(out) => Ok(out),
        None => Err(StoreError::ConfigWriteFailed),
    }
}

} // verus!
