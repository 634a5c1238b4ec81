//! Installing the .NET SDK, and pointing tasks at it.

use crate::config::DotnetToolchainConfig;
use crate::discovery::DirPath;
use crate::msbuild::ProcessOutput;
use crate::str_map::StrMap;
use crate::text;
use crate::tier2::CommandLine;
use vstd::prelude::*;

verus! {

// ---------------------------------------------------------------------------
// Installing
// ---------------------------------------------------------------------------

/// The path of an entry inside a directory.
pub open spec fn joined_path(dir: Seq<char>, name: Seq<char>) -> Seq<char> {
    if dir.len() == 0 {
        name
    } else if dir.last() == '/' {
        dir + name
    } else {
        dir.push('/') + name
    }
}

/// The path of an entry inside a directory.
fn join_path(dir: &str, name: &str) -> (r: String)
    ensures
        r@ == joined_path(dir@, name@),
{
    let mut r = text::chars_of(dir);
    if r.len() > 0 && r[r.len() - 1] != '/' {
        r.push('/');
    }
    text::push_text(&mut r, name);
    assert(r@ =~= joined_path(dir@, name@));
    text::string_of(&r)
}

/// The file name of the official install script.
pub fn install_script_file_name(windows: bool) -> (r: &'static str)
    ensures
        r@ == (if windows {
            "dotnet-install.ps1"@
        } else {
            "dotnet-install.sh"@
        }),
{
    if windows {
        "dotnet-install.ps1"
    } else {
        "dotnet-install.sh"
    }
}

/// Where the official install script is fetched from.
pub fn install_script_url(windows: bool) -> (r: &'static str)
    ensures
        r@ == (if windows {
            "https://dot.net/v1/dotnet-install.ps1"@
        } else {
            "https://dot.net/v1/dotnet-install.sh"@
        }),
{
    if windows {
        "https://dot.net/v1/dotnet-install.ps1"
    } else {
        "https://dot.net/v1/dotnet-install.sh"
    }
}

/// An SDK version to install.
#[derive(Debug, PartialEq, Eq)]
pub enum SdkVersion {
    /// A fully-qualified version.
    Exact(String),
    /// A channel, whose latest version is installed.
    Channel(String),
}

/// The version that is configured, as far as it matters which SDK it stands for.
#[derive(Debug, PartialEq, Eq)]
pub enum ConfiguredVersion {
    /// A fully-qualified semantic version.
    Semantic(String),
    /// A partial version, without its operator.
    Req(String),
    /// A named version.
    Alias(String),
    /// Any version at all.
    Any,
    /// Several requirements of which one has to be met.
    ReqAny(String),
    /// A fully-qualified calendar version.
    Calendar(String),
    /// The canary version.
    Canary,
}

impl ConfiguredVersion {
    /// How the version is written.
    pub open spec fn shown(self) -> Seq<char> {
        match self {
            ConfiguredVersion::Semantic(version) => version@,
            ConfiguredVersion::Req(version) => version@,
            ConfiguredVersion::Alias(name) => name@,
            ConfiguredVersion::Any => "*"@,
            ConfiguredVersion::ReqAny(versions) => versions@,
            ConfiguredVersion::Calendar(version) => version@,
            ConfiguredVersion::Canary => "canary"@,
        }
    }
}

/// The message on a version that names no SDK.
fn no_sdk_version(shown: &str) -> (r: String)
    ensures
        r@ == shown@ + " is no .NET SDK version or channel."@,
{
    text::concat(shown, " is no .NET SDK version or channel.")
}

/// The SDK that a configured version stands for: a fully-qualified version itself, a
/// partial one the channel of that version, and an alias the channel of that name.
/// Anything else stands for none.
pub fn sdk_version(spec: &ConfiguredVersion) -> (r: Result<SdkVersion, String>)
    ensures
        match *spec {
            ConfiguredVersion::Semantic(version) => r is Ok && r->Ok_0 is Exact
                && r->Ok_0->Exact_0@ == version@,
            ConfiguredVersion::Req(channel) => r is Ok && r->Ok_0 is Channel
                && r->Ok_0->Channel_0@ == channel@,
            ConfiguredVersion::Alias(channel) => r is Ok && r->Ok_0 is Channel
                && r->Ok_0->Channel_0@ == channel@,
            _ => r is Err && r->Err_0@ == spec.shown() + " is no .NET SDK version or channel."@,
        },
{
    match spec {
        ConfiguredVersion::Semantic(version) => Ok(SdkVersion::Exact(version.clone())),
        ConfiguredVersion::Req(channel) => Ok(SdkVersion::Channel(channel.clone())),
        ConfiguredVersion::Alias(channel) => Ok(SdkVersion::Channel(channel.clone())),
        ConfiguredVersion::Any => Err(no_sdk_version("*")),
        ConfiguredVersion::ReqAny(versions) => Err(no_sdk_version(versions.as_str())),
        ConfiguredVersion::Calendar(version) => Err(no_sdk_version(version.as_str())),
        ConfiguredVersion::Canary => Err(no_sdk_version("canary")),
    }
}

/// The arguments of the install script that ask for a version.
pub open spec fn version_arguments(version: SdkVersion, windows: bool) -> Seq<Seq<char>> {
    match version {
        SdkVersion::Exact(version) => seq![
            if windows {
                "-Version"@
            } else {
                "--version"@
            },
            version@,
        ],
        SdkVersion::Channel(channel) => seq![
            if windows {
                "-Channel"@
            } else {
                "--channel"@
            },
            channel@,
        ],
    }
}

/// The arguments of the install script that ask for a version.
pub fn install_version_args(version: &SdkVersion, windows: bool) -> (r: Vec<String>)
    ensures
        text::views(r@) == version_arguments(*version, windows),
{
    let mut args: Vec<String> = Vec::new();
    match version {
        SdkVersion::Exact(version) => {
            text::push_owned(
                &mut args,
                if windows {
                    "-Version"
                } else {
                    "--version"
                },
            );
            text::push_owned(&mut args, version.as_str());
        },
        SdkVersion::Channel(channel) => {
            text::push_owned(
                &mut args,
                if windows {
                    "-Channel"
                } else {
                    "--channel"
                },
            );
            text::push_owned(&mut args, channel.as_str());
        },
    }
    assert(text::views(args@) =~= version_arguments(*version, windows));
    args
}

/// Where SDKs are installed: the configured root, or else `.dotnet` in the home
/// directory. The same order as for the root that tasks are pointed at, so that
/// installed SDKs are picked up without any further configuration.
pub open spec fn install_root(
    configured: Option<Seq<char>>,
    home: Option<Seq<char>>,
) -> Option<Seq<char>> {
    match configured {
        Some(root) => Some(root),
        None => match home {
            Some(home) => Some(joined_path(home, ".dotnet"@)),
            None => None,
        },
    }
}

/// What to do for a configured version.
#[derive(Debug, PartialEq, Eq)]
pub enum SetupPlan {
    /// Nothing: no version is configured, so the SDK on `PATH` is used.
    Skip,
    /// The setup fails with this message.
    Fail(String),
    /// Run the install script, unless the SDK is there already.
    Install(InstallPlan),
}

/// How to install an SDK.
#[derive(Debug, PartialEq, Eq)]
pub struct InstallPlan {
    /// Where SDKs are installed. Versions install side-by-side.
    pub install_root: String,
    /// Where the SDK lies if it is there already. Only fully-qualified versions can skip
    /// the network; channels and aliases resolve server-side.
    pub sdk_dir: Option<String>,
    /// The arguments that ask for the version.
    pub version_args: Vec<String>,
}

/// The views of an optional text.
pub open spec fn optional_view(content: Option<String>) -> Option<Seq<char>> {
    match content {
        Some(content) => Some(content@),
        None => None,
    }
}

/// Plans the setup of the toolchain, for the configured version, if there is one, and
/// the host's home directory, if it is known. A configured version that is no SDK
/// version comes as the message that says so.
pub fn setup_toolchain(
    config: &DotnetToolchainConfig,
    version: Option<Result<SdkVersion, String>>,
    home: Option<&str>,
    windows: bool,
) -> (r: SetupPlan)
    ensures
        ({
            let root = install_root(
                optional_view(config.dotnet_root),
                match home {
                    Some(home) => Some(home@),
                    None => None,
                },
            );
            match version {
                None => r is Skip,
                Some(version) => match root {
                    None => r is Fail && r->Fail_0@
                        == "Unable to resolve the host home directory for the default `~/.dotnet` install root."@,
                    Some(root) => match version {
                        Err(message) => r is Fail && r->Fail_0@ == message@,
                        Ok(version) => r is Install && r->Install_0.install_root@ == root
                            && optional_view(r->Install_0.sdk_dir) == (match version {
                            SdkVersion::Exact(version) => Some(
                                joined_path(joined_path(root, "sdk"@), version@),
                            ),
                            SdkVersion::Channel(_) => None,
                        }) && text::views(r->Install_0.version_args@) == version_arguments(
                            version,
                            windows,
                        ),
                    },
                },
            }
        }),
{
    let version = match version {
        Some(version) => version,
        None => {
            return SetupPlan::Skip;
        },
    };
    let root = match &config.dotnet_root {
        Some(root) => root.clone(),
        None => match home {
            Some(home) => join_path(home, ".dotnet"),
            None => {
                return SetupPlan::Fail(
                    text::owned(
                        "Unable to resolve the host home directory for the default `~/.dotnet` install root.",
                    ),
                );
            },
        },
    };
    let version = match version {
        Ok(version) => version,
        Err(message) => {
            return SetupPlan::Fail(message);
        },
    };
    let version_args = install_version_args(&version, windows);
    let sdk_dir = match &version {
        SdkVersion::Exact(version) => {
            let sdks = join_path(root.as_str(), "sdk");
            Some(join_path(sdks.as_str(), version.as_str()))
        },
        SdkVersion::Channel(_) => None,
    };
    SetupPlan::Install(InstallPlan { install_root: root, sdk_dir, version_args })
}

/// Where the install script is staged: under moon's cache directory.
pub fn install_script_file(workspace_root: &DirPath, script_name: &str) -> (r: DirPath)
    ensures
        r@ == workspace_root@.join(".moon"@).join("cache"@).join("dotnet-toolchain"@).join(
            script_name@,
        ),
{
    workspace_root.join(".moon").join("cache").join("dotnet-toolchain").join(script_name)
}

/// The arguments that run the install script, before those that ask for a version.
pub open spec fn script_arguments(
    windows: bool,
    script: Seq<char>,
    root: Seq<char>,
) -> Seq<Seq<char>> {
    if windows {
        seq![
            "-NoProfile"@,
            "-ExecutionPolicy"@,
            "Bypass"@,
            "-File"@,
            script,
            "-InstallDir"@,
            root,
            "-NoPath"@,
        ]
    } else {
        seq![script, "--install-dir"@, root, "--no-path"@]
    }
}

/// The command that installs an SDK. `--no-path`: task environments are pointed at the
/// SDK on their own; the user's shell profile is left alone.
pub fn install_command(windows: bool, script: &str, plan: &InstallPlan) -> (r: CommandLine)
    ensures
        r.command@ == (if windows {
            "powershell.exe"@
        } else {
            "bash"@
        }),
        text::views(r.args@) == script_arguments(windows, script@, plan.install_root@)
            + text::views(plan.version_args@),
{
    let root = plan.install_root.as_str();
    let mut args: Vec<String> = Vec::new();
    if windows {
        text::push_owned(&mut args, "-NoProfile");
        text::push_owned(&mut args, "-ExecutionPolicy");
        text::push_owned(&mut args, "Bypass");
        text::push_owned(&mut args, "-File");
        text::push_owned(&mut args, script);
        text::push_owned(&mut args, "-InstallDir");
        text::push_owned(&mut args, root);
        text::push_owned(&mut args, "-NoPath");
    } else {
        text::push_owned(&mut args, script);
        text::push_owned(&mut args, "--install-dir");
        text::push_owned(&mut args, root);
        text::push_owned(&mut args, "--no-path");
    }
    assert(text::views(args@) =~= script_arguments(windows, script@, root@));
    text::extend(&mut args, &plan.version_args);
    CommandLine {
        command: text::owned(
            if windows {
                "powershell.exe"
            } else {
                "bash"
            },
        ),
        args,
    }
}

/// The message for an install script that failed.
pub open spec fn install_failure(output: ProcessOutput) -> Seq<char> {
    "dotnet-install failed with exit code "@ + text::decimal(output.exit_code as int) + ":\n"@
        + output.stdout@ + "\n"@ + output.stderr@
}

/// The result of running the install script.
pub fn install_result(output: &ProcessOutput) -> (r: Result<(), String>)
    ensures
        match r {
            Ok(()) => output.exit_code == 0,
            Err(message) => output.exit_code != 0 && message@ == install_failure(*output),
        },
{
    if output.exit_code == 0 {
        return Ok(());
    }
    let mut message = text::chars_of("dotnet-install failed with exit code ");
    text::push_text(&mut message, text::to_decimal(output.exit_code).as_str());
    text::push_text(&mut message, ":\n");
    text::push_text(&mut message, output.stdout.as_str());
    text::push_text(&mut message, "\n");
    text::push_text(&mut message, output.stderr.as_str());
    Err(text::string_of(&message))
}

// ---------------------------------------------------------------------------
// Task environments
// ---------------------------------------------------------------------------

/// The root of the SDK that tasks are pointed at: the configured one, or else the one
/// in the environment, or else `.dotnet` in the home directory. Because the latter
/// doubles as the dotnet CLI's user-level cache directory, it only counts where the
/// `dotnet` executable lies at its root.
pub open spec fn dotnet_root(
    configured: Option<Seq<char>>,
    ambient: Option<Seq<char>>,
    home: Option<Seq<char>>,
    home_has_dotnet: bool,
) -> Option<Seq<char>> {
    match configured {
        Some(root) => Some(root),
        None => if ambient is Some && ambient->Some_0.len() > 0 {
            ambient
        } else if home is Some && home_has_dotnet {
            Some(joined_path(home->Some_0, ".dotnet"@))
        } else {
            None
        },
    }
}

/// What is added to the environment of a task.
#[derive(Debug, PartialEq, Eq)]
pub struct TaskEnvironment {
    pub env: StrMap<String>,
    /// The directories to put in front of `PATH`.
    pub paths: Vec<String>,
}

/// The environment variables that are added for an SDK root.
pub open spec fn root_variables(root: Seq<char>) -> Map<Seq<char>, Seq<char>> {
    Map::empty().insert("DOTNET_ROOT"@, root).insert("DOTNET_CLI_TELEMETRY_OPTOUT"@, "1"@)
}

/// The root of the SDK that tasks are pointed at, if there is one. `ambient` is the
/// value of `DOTNET_ROOT` in the environment.
pub fn resolve_dotnet_root(
    config: &DotnetToolchainConfig,
    ambient: Option<&str>,
    home: Option<&str>,
    home_has_dotnet: bool,
) -> (r: Option<String>)
    ensures
        optional_view(r) == dotnet_root(
            optional_view(config.dotnet_root),
            match ambient {
                Some(ambient) => Some(ambient@),
                None => None,
            },
            match home {
                Some(home) => Some(home@),
                None => None,
            },
            home_has_dotnet,
        ),
{
    if let Some(root) = &config.dotnet_root {
        return Some(root.clone());
    }
    if let Some(root) = ambient {
        if !root.is_empty() {
            return Some(text::owned(root));
        }
    }
    match home {
        Some(home) => if home_has_dotnet {
            Some(join_path(home, ".dotnet"))
        } else {
            None
        },
        None => None,
    }
}

/// What is added to the environment of a task. Without an SDK root nothing is.
pub fn extend_task_command(root: Option<&str>) -> (r: TaskEnvironment)
    ensures
        match root {
            Some(root) => r.env@ == root_variables(root@) && text::views(r.paths@) == seq![root@],
            None => r.env@ == Map::<Seq<char>, Seq<char>>::empty() && r.paths@.len() == 0,
        },
{
    let mut env: StrMap<String> = StrMap::new();
    let mut paths: Vec<String> = Vec::new();
    if let Some(root) = root {
        env.insert(text::owned("DOTNET_ROOT"), text::owned(root));
        env.insert(text::owned("DOTNET_CLI_TELEMETRY_OPTOUT"), text::owned("1"));
        text::push_owned(&mut paths, root);
        assert(text::views(paths@) =~= seq![root@]);
    }
    TaskEnvironment { env, paths }
}

/// An SDK is installed where tasks look for it: wherever one is installed, tasks are
/// pointed there, unless the environment points them elsewhere.
pub proof fn law_tasks_find_installed_sdks(
    configured: Option<Seq<char>>,
    ambient: Option<Seq<char>>,
    home: Option<Seq<char>>,
)
    requires
        install_root(configured, home) is Some,
        configured is Some || ambient is None || ambient->Some_0.len() == 0,
    ensures
        dotnet_root(configured, ambient, home, true) == install_root(configured, home),
{
}

/// Where an entry lies inside a directory does not depend on a slash at its end, and one
/// slash stands between the two.
pub proof fn law_one_slash_joins_paths(dir: Seq<char>, name: Seq<char>)
    requires
        dir.len() > 0,
        dir.last() != '/',
    ensures
        joined_path(dir, name) == dir + "/"@ + name,
        joined_path(dir.push('/'), name) == joined_path(dir, name),
        joined_path(Seq::empty(), name) == name,
{
    reveal_strlit("/");
    assert(dir.push('/') + name =~= dir + "/"@ + name);
}

/// Which root tasks are pointed at: the configured one before the one of the environment,
/// and that before the one at home, which counts where an SDK lies in it.
pub proof fn law_roots_are_taken_in_order(
    configured: Option<Seq<char>>,
    ambient: Option<Seq<char>>,
    home: Option<Seq<char>>,
    home_has_dotnet: bool,
)
    ensures
        ({
            let root = dotnet_root(configured, ambient, home, home_has_dotnet);
            let in_environment = ambient is Some && ambient->Some_0.len() > 0;
            &&& configured is Some ==> root == configured
            &&& configured is None && in_environment ==> root == ambient
            &&& configured is None && !in_environment && home is Some && home_has_dotnet
                ==> root == Some(joined_path(home->Some_0, ".dotnet"@))
            &&& root is None <==> configured is None && !in_environment && (home is None
                || !home_has_dotnet)
        }),
        ({
            let root = install_root(configured, home);
            &&& configured is Some ==> root == configured
            &&& configured is None && home is Some ==> root == Some(
                joined_path(home->Some_0, ".dotnet"@),
            )
            &&& root is None <==> configured is None && home is None
        }),
{
}

/// What the install script is told: a fully-qualified version as such and a channel as
/// such, in the manner of the host.
pub proof fn law_versions_are_asked_for(version: SdkVersion, windows: bool)
    ensures
        version_arguments(version, windows).len() == 2,
        version is Exact ==> version_arguments(version, windows)[1] == version->Exact_0@
            && version_arguments(version, windows)[0] == (if windows {
            "-Version"@
        } else {
            "--version"@
        }),
        version is Channel ==> version_arguments(version, windows)[1] == version->Channel_0@
            && version_arguments(version, windows)[0] == (if windows {
            "-Channel"@
        } else {
            "--channel"@
        }),
{
}

/// The install script is run from where it is, installs into the root, and leaves `PATH`
/// alone.
pub proof fn law_scripts_install_into_the_root(
    windows: bool,
    script: Seq<char>,
    root: Seq<char>,
)
    ensures
        ({
            let args = script_arguments(windows, script, root);
            if windows {
                &&& args.len() == 8
                &&& args[0] == "-NoProfile"@
                &&& args[1] == "-ExecutionPolicy"@ && args[2] == "Bypass"@
                &&& args[3] == "-File"@ && args[4] == script
                &&& args[5] == "-InstallDir"@ && args[6] == root
                &&& args[7] == "-NoPath"@
            } else {
                &&& args.len() == 4
                &&& args[0] == script
                &&& args[1] == "--install-dir"@ && args[2] == root
                &&& args[3] == "--no-path"@
            }
        }),
{
}

/// A task is told the root of its SDK, and nothing is reported about it.
pub proof fn law_tasks_are_told_the_root(root: Seq<char>, name: Seq<char>)
    ensures
        root_variables(root).contains_key(name) <==> name == "DOTNET_ROOT"@ || name
            == "DOTNET_CLI_TELEMETRY_OPTOUT"@,
        root_variables(root)["DOTNET_ROOT"@] == root,
        root_variables(root)["DOTNET_CLI_TELEMETRY_OPTOUT"@] == "1"@,
{
    reveal_strlit("DOTNET_ROOT");
    reveal_strlit("DOTNET_CLI_TELEMETRY_OPTOUT");
    assert("DOTNET_ROOT"@.len() != "DOTNET_CLI_TELEMETRY_OPTOUT"@.len());
}

/// A failed install reports its exit code and all that it printed.
pub proof fn law_failed_installs_report_everything(output: ProcessOutput)
    ensures
        text::contains_text(install_failure(output), text::decimal(output.exit_code as int)),
        text::contains_text(install_failure(output), output.stdout@),
        output.stderr@.is_suffix_of(install_failure(output)),
{
    let whole = install_failure(output);
    let open = "dotnet-install failed with exit code "@;
    let code = text::decimal(output.exit_code as int);
    let colon = ":\n"@;
    let at = open.len() as int;
    assert(whole.subrange(at, at + code.len()) =~= code);
    assert(text::occurs_at(whole, code, at));
    let there = (open.len() + code.len() + colon.len()) as int;
    assert(whole.subrange(there, there + output.stdout@.len()) =~= output.stdout@);
    assert(text::occurs_at(whole, output.stdout@, there));
    assert(whole.subrange(whole.len() - output.stderr@.len(), whole.len() as int)
        =~= output.stderr@);
}

/// Versions are shown as they are written.
pub proof fn law_versions_are_shown_as_written(version: String)
    ensures
        ConfiguredVersion::Semantic(version).shown() == version@,
        ConfiguredVersion::Req(version).shown() == version@,
        ConfiguredVersion::Alias(version).shown() == version@,
        ConfiguredVersion::ReqAny(version).shown() == version@,
        ConfiguredVersion::Calendar(version).shown() == version@,
        ConfiguredVersion::Any.shown() == "*"@,
        ConfiguredVersion::Canary.shown() == "canary"@,
{
}

} // verus!
