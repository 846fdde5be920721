//! Location of the global steplock directory shared by every project.
//!
//! The global directory has the same layout as a project `.steplock/`:
//! `checklists/<name>/{config.toml,flow.mmd}`, `sessions/` and `audit.log`.
//! Whether a path is absolute, and how components are joined, follow the platform's
//! path rules: the result names a base path and the components to join below it.
use vstd::prelude::*;
use crate::text::views;

verus! {

/// Environment variable that overrides the global steplock directory.
/// Set it to an empty string to turn global checklists off.
pub const GLOBAL_DIR_ENV: &'static str = "STEPLOCK_GLOBAL_DIR";

/// Environment variable that names the configuration base directory (XDG).
pub const XDG_CONFIG_HOME_ENV: &'static str = "XDG_CONFIG_HOME";

/// Environment variable by which a sandboxing agent (Hermes) names the user's real home.
pub const AGENT_REAL_HOME_ENV: &'static str = "HERMES_REAL_HOME";

/// The global steplock directory: the path `base` with the relative components `parts`
/// joined below it, in order.
#[derive(Debug, Clone)]
pub struct GlobalDir {
    pub base: String,
    pub parts: Vec<String>,
}

/// The abstract content of a [`GlobalDir`]: the base and the components.
pub open spec fn dir_view(d: GlobalDir) -> (Seq<char>, Seq<Seq<char>>) {
    (d.base@, views(d.parts@))
}

/// The view of an optional [`GlobalDir`].
pub open spec fn opt_dir_view(d: Option<GlobalDir>) -> Option<(Seq<char>, Seq<Seq<char>>)> {
    match d {
        Some(g) => Some(dir_view(g)),
        None => None,
    }
}

/// The view of an optional string.
pub open spec fn opt_str(o: Option<String>) -> Option<Seq<char>> {
    match o {
        Some(s) => Some(s@),
        None => None,
    }
}

/// The global steplock directory, from the environment variables, whether the platform
/// counts two of them as absolute paths, and the home directory:
/// `$STEPLOCK_GLOBAL_DIR` as it is (empty: none); else `$XDG_CONFIG_HOME/steplock` when
/// that variable is absolute; else `$HERMES_REAL_HOME/.config/steplock` when that one is
/// absolute; else `<home>/.config/steplock`; else none.
pub open spec fn global_dir_spec(
    global_dir: Option<Seq<char>>,
    xdg_config_home: Option<Seq<char>>,
    xdg_is_absolute: bool,
    agent_real_home: Option<Seq<char>>,
    agent_real_home_is_absolute: bool,
    home: Option<Seq<char>>,
) -> Option<(Seq<char>, Seq<Seq<char>>)> {
    if global_dir is Some {
        if global_dir->0.len() == 0 {
            None
        } else {
            Some((global_dir->0, seq![]))
        }
    } else if xdg_config_home is Some && xdg_is_absolute {
        Some((xdg_config_home->0, seq!["steplock"@]))
    } else if agent_real_home is Some && agent_real_home_is_absolute {
        Some((agent_real_home->0, seq![".config"@, "steplock"@]))
    } else if home is Some {
        Some((home->0, seq![".config"@, "steplock"@]))
    } else {
        None
    }
}

/// `<base>/.config/steplock`.
fn config_dir(base: String) -> (d: GlobalDir)
    ensures
        dir_view(d) == (base@, seq![".config"@, "steplock"@]),
{
    let parts = vec![String::from_str(".config"), String::from_str("steplock")];
    assert(views(parts@) =~= seq![".config"@, "steplock"@]);
    GlobalDir { base, parts }
}

/// The global steplock directory from the values of `STEPLOCK_GLOBAL_DIR`,
/// `XDG_CONFIG_HOME` and `HERMES_REAL_HOME` (each `None` when unset), whether the
/// platform counts the latter two as absolute paths, and the user's home directory.
pub fn choose_global_dir(
    global_dir: Option<String>,
    xdg_config_home: Option<String>,
    xdg_is_absolute: bool,
    agent_real_home: Option<String>,
    agent_real_home_is_absolute: bool,
    home: Option<String>,
) -> (r: Option<GlobalDir>)
    ensures
        opt_dir_view(r) == global_dir_spec(
            opt_str(global_dir),
            opt_str(xdg_config_home),
            xdg_is_absolute,
            opt_str(agent_real_home),
            agent_real_home_is_absolute,
            opt_str(home),
        ),
{
    if let Some(dir) = global_dir {
        if dir.as_str().is_empty() {
            return None;
        }
        let parts: Vec<String> = Vec::new();
        assert(views(parts@) =~= Seq::<Seq<char>>::empty());
        return Some(GlobalDir { base: dir, parts });
    }
    if let Some(xdg) = xdg_config_home {
        if xdg_is_absolute {
            let parts = vec![String::from_str("steplock")];
            assert(views(parts@) =~= seq!["steplock"@]);
            return Some(GlobalDir { base: xdg, parts });
        }
    }
    if let Some(real_home) = agent_real_home {
        if agent_real_home_is_absolute {
            return Some(config_dir(real_home));
        }
    }
    match home {
        Some(h) => Some(config_dir(h)),
        None => None,
    }
}

/// `p` is relative on every platform: it does not begin with `/` or `\`, and its second
/// character is not `:` (so it has neither a root nor a Windows prefix such as `C:`).
pub open spec fn surely_relative(p: Seq<char>) -> bool {
    p.len() == 0 || (p[0] != '/' && p[0] != '\\' && (p.len() < 2 || p[1] != ':'))
}

/// `std::path::Path::is_absolute` on `p`. It follows the platform's rules as documented: on
/// Unix a path is absolute when it starts with the root `/`; on Windows when it has a
/// prefix (`C:`, or one of the forms that begin with `\\`) and a root. The contract claims
/// only what holds on every platform: a path that is surely relative is not absolute.
#[verifier::external_body]
fn path_is_absolute(p: &str) -> (b: bool)
    ensures
        surely_relative(p@) ==> !b,
{
    std::path::Path::new(p).is_absolute()
}

/// Whether the platform counts `p` as an absolute path; `false` when it is absent.
fn absolute_opt(p: &Option<String>) -> (b: bool)
    ensures
        p is None ==> !b,
        p is Some && surely_relative(p->0@) ==> !b,
{
    match p {
        Some(s) => path_is_absolute(s.as_str()),
        None => false,
    }
}

/// Resolve the global steplock directory from the values of `STEPLOCK_GLOBAL_DIR`,
/// `XDG_CONFIG_HOME` and `HERMES_REAL_HOME` (each `None` when unset) and the user's
/// home directory, asking the platform whether the two variables are absolute paths.
/// The directory is not required to exist.
pub fn resolve_global_dir(
    global_dir: Option<String>,
    xdg_config_home: Option<String>,
    agent_real_home: Option<String>,
    home: Option<String>,
) -> (r: Option<GlobalDir>)
    ensures
        exists|xdg_abs: bool, real_abs: bool|
            {
                &&& (xdg_config_home is Some && surely_relative(xdg_config_home->0@) ==> !xdg_abs)
                &&& (agent_real_home is Some && surely_relative(agent_real_home->0@) ==> !real_abs)
                &&& opt_dir_view(r) == #[trigger] global_dir_spec(
                    opt_str(global_dir),
                    opt_str(xdg_config_home),
                    xdg_abs,
                    opt_str(agent_real_home),
                    real_abs,
                    opt_str(home),
                )
            },
{
    let xdg_abs = absolute_opt(&xdg_config_home);
    let real_abs = absolute_opt(&agent_real_home);
    let ghost (g0, x0, a0, h0) = (
        opt_str(global_dir),
        opt_str(xdg_config_home),
        opt_str(agent_real_home),
        opt_str(home),
    );
    let r = choose_global_dir(
        global_dir,
        xdg_config_home,
        xdg_abs,
        agent_real_home,
        real_abs,
        home,
    );
    assert(opt_dir_view(r) == global_dir_spec(g0, x0, xdg_abs, a0, real_abs, h0));
    r
}

} // verus!
