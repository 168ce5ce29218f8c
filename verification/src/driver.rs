//! What the drivers have in common besides their targets: their errors, and the exits of the
//! tools that they run.
use crate::path::{absolute, components, is_absolute, split_path};
use crate::target::{ConfigError, ConfigFailure};
use crate::text::holds;
use vstd::prelude::*;

verus! {

/// Why a driver makes no target of a request, or does not run it.
#[derive(Debug)]
pub enum DriverError {
    /// The configuration cannot be used.
    Config { driver: String, cause: ConfigError },
    /// A field holds none of the values that the driver knows.
    Unsupported { driver: String, field: String, value: String, addr: String, expected: String },
    /// A package wants to run scripts when it is installed, and may not.
    ScriptsNotAllowed { name: String, version: String },
    /// A path leads out of the workspace.
    PathEscape { field: String, path: String },
    /// There is nothing to check.
    NothingToCheck { addr: String },
}

/// A value that a driver does not know, as mathematical values.
pub struct UnsupportedView {
    pub driver: Seq<char>,
    pub field: Seq<char>,
    pub value: Seq<char>,
    pub addr: Seq<char>,
    pub expected: Seq<char>,
}

/// Why a driver makes no target or does not run it, as mathematical values.
pub enum DriverFailure {
    Config(Seq<char>, ConfigFailure),
    Unsupported(UnsupportedView),
    ScriptsNotAllowed(Seq<char>, Seq<char>),
    PathEscape(Seq<char>, Seq<char>),
    NothingToCheck(Seq<char>),
}

impl View for DriverError {
    type V = DriverFailure;

    open spec fn view(&self) -> DriverFailure {
        match self {
            DriverError::Config { driver, cause } => DriverFailure::Config(driver@, cause@),
            DriverError::Unsupported { driver, field, value, addr, expected } =>
                DriverFailure::Unsupported(
                UnsupportedView {
                    driver: driver@,
                    field: field@,
                    value: value@,
                    addr: addr@,
                    expected: expected@,
                },
            ),
            DriverError::ScriptsNotAllowed { name, version } => DriverFailure::ScriptsNotAllowed(
                name@,
                version@,
            ),
            DriverError::PathEscape { field, path } => DriverFailure::PathEscape(field@, path@),
            DriverError::NothingToCheck { addr } => DriverFailure::NothingToCheck(addr@),
        }
    }
}

impl DriverError {
    /// What the error says.
    pub open spec fn text(&self) -> Seq<char> {
        match self {
            DriverError::Config { driver, cause } => "parse "@ + driver@ + " config: "@
                + cause.text(),
            DriverError::Unsupported { driver, field, value, addr, expected } => driver@
                + ": unsupported "@ + field@ + " `"@ + value@ + "` for "@ + addr@ + ", expected "@
                + expected@,
            DriverError::ScriptsNotAllowed { name, version } => "js_install: `"@ + name@ + "@"@
                + version@
                + "` declares an install/preinstall/postinstall lifecycle script, which is disabled by default. Add `"@
                + name@ + "` (or `"@ + name@ + "@"@ + version@
                + "`) to the js provider's `allow_scripts` option to permit it explicitly."@,
            DriverError::PathEscape { field, path } => field@ + " `"@ + path@
                + "` escapes the workspace"@,
            DriverError::NothingToCheck { addr } => "js_typecheck: no tsconfig.json found for "@
                + addr@ + " and no first-party source files staged, nothing to typecheck"@,
        }
    }

    /// What the error says.
    pub fn message(&self) -> (r: String)
        ensures
            r@ == self.text(),
    {
        match self {
            DriverError::Config { driver, cause } => {
                let mut out = "parse ".to_owned();
                out.append(driver.as_str());
                out.append(" config: ");
                out.append(cause.message().as_str());
                out
            },
            DriverError::Unsupported { driver, field, value, addr, expected } => {
                let mut out = driver.clone();
                out.append(": unsupported ");
                out.append(field.as_str());
                out.append(" `");
                out.append(value.as_str());
                out.append("` for ");
                out.append(addr.as_str());
                out.append(", expected ");
                out.append(expected.as_str());
                out
            },
            DriverError::ScriptsNotAllowed { name, version } => {
                let mut out = "js_install: `".to_owned();
                out.append(name.as_str());
                out.append("@");
                out.append(version.as_str());
                out.append(
                    "` declares an install/preinstall/postinstall lifecycle script, which is disabled by default. Add `",
                );
                out.append(name.as_str());
                out.append("` (or `");
                out.append(name.as_str());
                out.append("@");
                out.append(version.as_str());
                out.append(
                    "`) to the js provider's `allow_scripts` option to permit it explicitly.",
                );
                out
            },
            DriverError::PathEscape { field, path } => {
                let mut out = field.clone();
                out.append(" `");
                out.append(path.as_str());
                out.append("` escapes the workspace");
                out
            },
            DriverError::NothingToCheck { addr } => {
                let mut out = "js_typecheck: no tsconfig.json found for ".to_owned();
                out.append(addr.as_str());
                out.append(" and no first-party source files staged, nothing to typecheck");
                out
            },
        }
    }
}

/// Whether a path may lead out of the directory that it is taken from: it is absolute, or it
/// goes up.
pub open spec fn path_escapes(p: Seq<char>) -> bool {
    absolute(p) || components(p).contains(".."@)
}

/// Refuses a path that may lead out of the directory that it is taken from.
pub fn reject_path_escape(field: &str, path: &str) -> (r: Result<(), DriverError>)
    ensures
        match r {
            Ok(_) => !path_escapes(path@),
            Err(e) => path_escapes(path@) && e@ == DriverFailure::PathEscape(field@, path@),
        },
{
    if is_absolute(path) || holds(&split_path(path), "..") {
        Err(DriverError::PathEscape { field: field.to_owned(), path: path.to_owned() })
    } else {
        Ok(())
    }
}

/// How a tool ended.
#[derive(Debug)]
pub struct ToolExit {
    pub success: bool,
    /// The exit status in words.
    pub status: String,
    pub stdout: String,
    pub stderr: String,
}

/// A tool that failed.
#[derive(Debug)]
pub struct ToolFailure {
    pub message: String,
}

/// What is said of a tool that failed.
pub open spec fn tool_failure_text(
    what: Seq<char>,
    status: Seq<char>,
    detail: Seq<char>,
) -> Seq<char> {
    what + " failed ("@ + status + "):\n"@ + detail
}

/// What is said of a tool that failed.
pub(crate) fn make_tool_failure(what: &str, status: &str, detail: &str) -> (r: ToolFailure)
    ensures
        r.message@ == tool_failure_text(what@, status@, detail@),
{
    let mut message = what.to_owned();
    message.append(" failed (");
    message.append(status);
    message.append("):\n");
    message.append(detail);
    ToolFailure { message }
}

/// A name followed by a value.
pub(crate) fn with_value(name: &str, value: &str) -> (r: String)
    ensures
        r@ == name@ + value@,
{
    let mut out = name.to_owned();
    out.append(value);
    out
}

} // verus!
