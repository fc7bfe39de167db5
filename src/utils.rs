use vstd::prelude::*;

use crate::text::{chars_of, same_chars};

verus! {

/// Name of the configuration file in the tool's configuration directory.
pub const CONFIG_FILE: &'static str = "conf.json";

/// Name of the history file in the tool's configuration directory.
pub const HISTORY_FILE: &'static str = "history";

/// Name of the configuration directory under the user's configuration root.
pub const APP_DIR: &'static str = "vimoxide";

/// The settings read from the configuration file.
pub struct Config {
    /// The editor program: `vim` or `nvim`.
    pub executor: String,
}

/// Why the default configuration was used.
#[derive(PartialEq, Eq, Structural, Clone, Copy, Debug)]
pub enum ConfigErrorKind {
    /// The configuration file could not be read.
    Unreadable,
    /// The file is not JSON, or holds no string `executor` field.
    Malformed,
    /// The `executor` field names neither `vim` nor `nvim`.
    UnknownExecutor,
}

/// A usable configuration, with whether and why the default was taken.
pub struct ConfigLoadResult {
    pub value: Config,
    pub used_default: bool,
    pub reason: Option<ConfigErrorKind>,
}

/// The editors that can be configured.
pub open spec fn valid_executor(e: Seq<char>) -> bool {
    e == "vim"@ || e == "nvim"@
}

/// The default configuration, taken for `reason`.
pub open spec fn defaulted(r: ConfigLoadResult, reason: ConfigErrorKind) -> bool {
    &&& r.value.executor@ == "vim"@
    &&& r.used_default
    &&& r.reason == Some(reason)
}

/// Whether `e` is `vim` or `nvim`.
pub fn is_valid_executor(e: &str) -> (r: bool)
    ensures
        r == valid_executor(e@),
{
    let c = chars_of(e);
    let vim = chars_of("vim");
    let nvim = chars_of("nvim");
    same_chars(&c, &vim) || same_chars(&c, &nvim)
}

/// The default configuration: `vim`.
pub fn default_config() -> (r: Config)
    ensures
        r.executor@ == "vim"@,
{
    Config { executor: "vim".to_owned() }
}

/// The default configuration, recorded as taken for `reason`.
pub fn fallback(reason: ConfigErrorKind) -> (r: ConfigLoadResult)
    ensures
        defaulted(r, reason),
{
    ConfigLoadResult { value: default_config(), used_default: true, reason: Some(reason) }
}

/// The view of an optional string.
pub open spec fn opt_view(o: Option<&str>) -> Option<Seq<char>> {
    match o {
        Some(e) => Some(e@),
        None => None,
    }
}

/// `r` is the configuration for the `executor` field `field` of the file,
/// `None` where the file holds no such string field: that editor where it is
/// `vim` or `nvim`, else the default, with the reason.
pub open spec fn config_for(r: ConfigLoadResult, field: Option<Seq<char>>) -> bool {
    match field {
        None => defaulted(r, ConfigErrorKind::Malformed),
        Some(e) => if valid_executor(e) {
            r.value.executor@ == e && !r.used_default && r.reason is None
        } else {
            defaulted(r, ConfigErrorKind::UnknownExecutor)
        },
    }
}

/// The configuration for the `executor` field of the file, `None` where the
/// file holds no such string field.
pub fn config_from_executor(executor: Option<&str>) -> (r: ConfigLoadResult)
    ensures
        config_for(r, opt_view(executor)),
{
    match executor {
        None => fallback(ConfigErrorKind::Malformed),
        Some(e) => {
            if is_valid_executor(e) {
                ConfigLoadResult {
                    value: Config { executor: e.to_owned() },
                    used_default: false,
                    reason: None,
                }
            } else {
                fallback(ConfigErrorKind::UnknownExecutor)
            }
        },
    }
}

#[verifier::external_type_specification]
#[verifier::external_body]
pub struct ExJsonError(serde_json::Error);

/// Whether `serde_json` reads `text` as one JSON value: well-formed JSON,
/// within the library's bound on nesting depth.
pub uninterp spec fn json_well_formed(text: Seq<char>) -> bool;

/// The string that the JSON pointer `pointer` addresses in the JSON value
/// `text`; none where it addresses nothing or something other than a string.
pub uninterp spec fn json_string_at(text: Seq<char>, pointer: Seq<char>) -> Option<Seq<char>>;

/// The view of an optional owned string.
pub open spec fn opt_string_view(o: Option<String>) -> Option<Seq<char>> {
    match o {
        Some(e) => Some(e@),
        None => None,
    }
}

/// Relies on `serde_json::from_str` into `serde_json::Value`, then on
/// `serde_json::Value::pointer` and `serde_json::Value::as_str` on the value
/// read: whether reading succeeds, and the string found, depend on the text
/// and the pointer alone.
#[verifier::external_body]
fn string_at(text: &str, pointer: &str) -> (r: Result<Option<String>, serde_json::Error>)
    ensures
        r is Ok == json_well_formed(text@),
        r matches Ok(f) ==> opt_string_view(f) == json_string_at(text@, pointer@),
{
    match serde_json::from_str::<serde_json::Value>(text) {
        Ok(v) => Ok(v.pointer(pointer).and_then(|f| f.as_str()).map(|s| s.to_owned())),
        Err(e) => Err(e),
    }
}

/// The configuration held by the text of the configuration file. Text that
/// is not JSON gives the default; otherwise the string field `executor`
/// decides, as `config_from_executor` says.
pub fn config_from_json(text: &str) -> (r: ConfigLoadResult)
    ensures
        !json_well_formed(text@) ==> defaulted(r, ConfigErrorKind::Malformed),
        json_well_formed(text@) ==> config_for(r, json_string_at(text@, "/executor"@)),
{
    match string_at(text, "/executor") {
        Err(_) => fallback(ConfigErrorKind::Malformed),
        Ok(Some(e)) => config_from_executor(Some(e.as_str())),
        Ok(None) => config_from_executor(None),
    }
}

} // verus!
