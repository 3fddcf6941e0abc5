//! Where the sockets live, from the environment.

use vstd::prelude::*;
use vstd::string::*;

verus! {

pub open spec fn or_default(v: Option<String>, default: Seq<char>) -> Seq<char> {
    match v {
        Some(s) => s@,
        None => default,
    }
}

fn or_text(v: Option<String>, default: &str) -> (r: String)
    ensures
        r@ == or_default(v, default@),
{
    match v {
        Some(s) => s,
        None => default.to_owned(),
    }
}

/// The display name. Not the standard one: that is left to the compositor that
/// runs inside.
pub fn wayland_display(configured: Option<String>) -> (r: String)
    ensures
        r@ == or_default(configured, "land-0"@),
{
    or_text(configured, "land-0")
}

/// The runtime directory: the one that is configured, or one of the user's own
/// where that is missing or empty.
pub fn runtime_dir(configured: Option<String>, home: Option<String>) -> (r: String)
    ensures
        r@ == (if configured is Some && configured->Some_0@.len() > 0 {
            configured->Some_0@
        } else {
            or_default(home, "/tmp"@) + "/.cache/wl-runtime"@
        }),
{
    if let Some(dir) = configured {
        if dir.as_str().unicode_len() > 0 {
            return dir;
        }
    }
    let mut dir = or_text(home, "/tmp");
    dir.append("/.cache/wl-runtime");
    dir
}

/// Whether the runtime directory is the one that is configured.
pub fn runtime_dir_configured(configured: &Option<String>) -> (r: bool)
    ensures
        r == (configured is Some && configured->Some_0@.len() > 0),
{
    match configured {
        Some(dir) => dir.as_str().unicode_len() > 0,
        None => false,
    }
}

/// The runtime directory that a diagnosis reports.
pub fn reported_runtime_dir(configured: Option<String>) -> (r: String)
    ensures
        r@ == or_default(configured, "/tmp"@),
{
    or_text(configured, "/tmp")
}

/// The wayland socket.
pub fn wayland_socket_path(runtime: &str, display: &str) -> (r: String)
    ensures
        r@ == runtime@ + "/"@ + display@,
{
    let mut path = runtime.to_owned();
    path.append("/");
    path.append(display);
    path
}

/// The lock beside the wayland socket.
pub fn lock_path(socket: &str) -> (r: String)
    ensures
        r@ == socket@ + ".lock"@,
{
    let mut path = socket.to_owned();
    path.append(".lock");
    path
}

/// The land socket.
pub fn land_socket_path(configured: Option<String>, runtime: &str) -> (r: String)
    ensures
        r@ == or_default(configured, runtime@ + "/wl-android/land.sock"@),
{
    match configured {
        Some(path) => path,
        None => {
            let mut path = runtime.to_owned();
            path.append("/wl-android/land.sock");
            path
        },
    }
}

/// What is configured is taken as it is, and the default only without it.
pub proof fn lemma_configured_is_taken(s: String, default: Seq<char>)
    ensures
        or_default(Some(s), default) == s@,
        or_default(None, default) == default,
{
}

} // verus!
