//! What the toolchain tells moon about itself.

use crate::text;
use vstd::prelude::*;

verus! {

/// What the toolchain is called and which files and executables tell that a project
/// uses it.
#[derive(Debug, PartialEq, Eq)]
pub struct ToolchainMetadata {
    pub name: String,
    pub plugin_version: String,
    /// Config file names and globs, besides lock files and manifests.
    pub config_file_globs: Vec<String>,
    /// The executables that the toolchain provides.
    pub exe_names: Vec<String>,
    pub lock_file_names: Vec<String>,
    /// No manifest has a fixed name that project detection could go by.
    pub manifest_file_names: Vec<String>,
    pub vendor_dir_name: Option<String>,
}

/// The config files that tell a .NET project.
pub open spec fn config_file_globs() -> Seq<Seq<char>> {
    seq![
        "*.{csproj,fsproj,vbproj}"@,
        "*.{sln,slnx}"@,
        "global.json"@,
        "Directory.Build.props"@,
        "Directory.Build.targets"@,
        "Directory.Build.rsp"@,
        "Directory.Packages.props"@,
        "{nuget,NuGet}.{config,Config}"@,
        "packages.*.lock.json"@,
    ]
}

/// What the toolchain is called and what it is detected by.
pub fn register_toolchain(plugin_version: &str) -> (r: ToolchainMetadata)
    ensures
        r.name@ == ".NET"@,
        r.plugin_version@ == plugin_version@,
        text::views(r.config_file_globs@) == config_file_globs(),
        text::views(r.exe_names@) == seq!["dotnet"@],
        text::views(r.lock_file_names@) == seq!["packages.lock.json"@],
        r.manifest_file_names@.len() == 0,
        r.vendor_dir_name is None,
{
    let mut globs: Vec<String> = Vec::new();
    text::push_owned(&mut globs, "*.{csproj,fsproj,vbproj}");
    text::push_owned(&mut globs, "*.{sln,slnx}");
    text::push_owned(&mut globs, "global.json");
    text::push_owned(&mut globs, "Directory.Build.props");
    text::push_owned(&mut globs, "Directory.Build.targets");
    text::push_owned(&mut globs, "Directory.Build.rsp");
    text::push_owned(&mut globs, "Directory.Packages.props");
    text::push_owned(&mut globs, "{nuget,NuGet}.{config,Config}");
    text::push_owned(&mut globs, "packages.*.lock.json");
    assert(text::views(globs@) =~= config_file_globs());
    let mut exe_names: Vec<String> = Vec::new();
    text::push_owned(&mut exe_names, "dotnet");
    assert(text::views(exe_names@) =~= seq!["dotnet"@]);
    let mut lock_file_names: Vec<String> = Vec::new();
    text::push_owned(&mut lock_file_names, "packages.lock.json");
    assert(text::views(lock_file_names@) =~= seq!["packages.lock.json"@]);
    ToolchainMetadata {
        name: text::owned(".NET"),
        plugin_version: text::owned(plugin_version),
        config_file_globs: globs,
        exe_names,
        lock_file_names,
        manifest_file_names: Vec::new(),
        vendor_dir_name: None,
    }
}

/// How a Docker image for a .NET project is scaffolded.
#[derive(Debug, PartialEq, Eq)]
pub struct DockerMetadata {
    pub default_image: String,
    /// The files that a restore needs.
    pub scaffold_globs: Vec<String>,
}

/// The files that a restore needs, without build output: generated
/// `obj/*.nuget.g.props` and `obj/*.nuget.g.targets` would otherwise match.
pub open spec fn scaffold_globs() -> Seq<Seq<char>> {
    seq![
        "**/*.{csproj,fsproj,vbproj}"@,
        "**/*.{sln,slnx}"@,
        "**/*.props"@,
        "**/*.targets"@,
        "**/Directory.Build.rsp"@,
        "**/{nuget,NuGet}.{config,Config}"@,
        "**/packages.lock.json"@,
        "**/packages.*.lock.json"@,
        "**/global.json"@,
        "!**/bin/**"@,
        "!**/obj/**"@,
    ]
}

/// How a Docker image for a .NET project is scaffolded.
pub fn define_docker_metadata() -> (r: DockerMetadata)
    ensures
        r.default_image@ == "mcr.microsoft.com/dotnet/sdk:latest"@,
        text::views(r.scaffold_globs@) == scaffold_globs(),
{
    let mut globs: Vec<String> = Vec::new();
    text::push_owned(&mut globs, "**/*.{csproj,fsproj,vbproj}");
    text::push_owned(&mut globs, "**/*.{sln,slnx}");
    text::push_owned(&mut globs, "**/*.props");
    text::push_owned(&mut globs, "**/*.targets");
    text::push_owned(&mut globs, "**/Directory.Build.rsp");
    text::push_owned(&mut globs, "**/{nuget,NuGet}.{config,Config}");
    text::push_owned(&mut globs, "**/packages.lock.json");
    text::push_owned(&mut globs, "**/packages.*.lock.json");
    text::push_owned(&mut globs, "**/global.json");
    text::push_owned(&mut globs, "!**/bin/**");
    text::push_owned(&mut globs, "!**/obj/**");
    assert(text::views(globs@) =~= scaffold_globs());
    DockerMetadata {
        default_image: text::owned("mcr.microsoft.com/dotnet/sdk:latest"),
        scaffold_globs: globs,
    }
}

/// A project is told by its project files, its solutions, its NuGet lock files and every
/// config file that counts for its evaluation.
pub proof fn law_projects_are_told_by_these_files(glob: Seq<char>)
    ensures
        config_file_globs().contains(glob) <==> {
            ||| glob == "*.{csproj,fsproj,vbproj}"@
            ||| glob == "*.{sln,slnx}"@
            ||| glob == "global.json"@
            ||| glob == "Directory.Build.props"@
            ||| glob == "Directory.Build.targets"@
            ||| glob == "Directory.Build.rsp"@
            ||| glob == "Directory.Packages.props"@
            ||| glob == "{nuget,NuGet}.{config,Config}"@
            ||| glob == "packages.*.lock.json"@
        },
{
    let all = config_file_globs();
    assert(all[0] == "*.{csproj,fsproj,vbproj}"@ && all[1] == "*.{sln,slnx}"@ && all[2]
        == "global.json"@ && all[3] == "Directory.Build.props"@ && all[4]
        == "Directory.Build.targets"@ && all[5] == "Directory.Build.rsp"@ && all[6]
        == "Directory.Packages.props"@ && all[7] == "{nuget,NuGet}.{config,Config}"@ && all[8]
        == "packages.*.lock.json"@);
}

/// An image is scaffolded with all that a restore reads, and without build output.
pub proof fn law_scaffolds_hold_what_a_restore_reads(glob: Seq<char>)
    ensures
        scaffold_globs().contains(glob) <==> {
            ||| glob == "**/*.{csproj,fsproj,vbproj}"@
            ||| glob == "**/*.{sln,slnx}"@
            ||| glob == "**/*.props"@
            ||| glob == "**/*.targets"@
            ||| glob == "**/Directory.Build.rsp"@
            ||| glob == "**/{nuget,NuGet}.{config,Config}"@
            ||| glob == "**/packages.lock.json"@
            ||| glob == "**/packages.*.lock.json"@
            ||| glob == "**/global.json"@
            ||| glob == "!**/bin/**"@
            ||| glob == "!**/obj/**"@
        },
{
    let all = scaffold_globs();
    assert(all[0] == "**/*.{csproj,fsproj,vbproj}"@ && all[1] == "**/*.{sln,slnx}"@ && all[2]
        == "**/*.props"@ && all[3] == "**/*.targets"@ && all[4] == "**/Directory.Build.rsp"@
        && all[5] == "**/{nuget,NuGet}.{config,Config}"@ && all[6] == "**/packages.lock.json"@
        && all[7] == "**/packages.*.lock.json"@ && all[8] == "**/global.json"@ && all[9]
        == "!**/bin/**"@ && all[10] == "!**/obj/**"@);
}

} // verus!
