use dotnet_toolchain::config::DotnetToolchainConfig;
use dotnet_toolchain::discovery::{DirEntry, DirListing, DirPath, DirTree, EntryKind, SubDir};
use dotnet_toolchain::global_json::{
    find_global_json, read_setting, sdk_version, selects_test_platform,
};
use dotnet_toolchain::msbuild::{parse_msbuild_output, ProcessOutput};
use dotnet_toolchain::str_map::StrMap;
use dotnet_toolchain::tier1::{define_docker_metadata, register_toolchain};
use dotnet_toolchain::tier2::{
    evaluated_packages, hash_task_contents, hashed_config_files, install_dependencies,
    locate_dependencies_root, lookup_packages, prune_docker, read_package_set, write_package_set,
    PackageLookup,
};
use dotnet_toolchain::tier3::{
    extend_task_command, install_command, install_result, install_script_file,
    install_script_file_name, install_script_url, install_version_args, resolve_dotnet_root,
    setup_toolchain, ConfiguredVersion, InstallPlan, SdkVersion, SetupPlan,
};

fn path(text: &str) -> DirPath {
    DirPath {
        absolute: true,
        parts: text.split('/').map(String::from).collect(),
    }
}

fn level(at: &str, files: &[&str]) -> DirListing {
    DirListing {
        path: path(at),
        entries: files
            .iter()
            .map(|name| DirEntry {
                name: name.to_string(),
                kind: EntryKind::File,
            })
            .collect(),
    }
}

fn map(entries: &[(&str, &str)]) -> StrMap<String> {
    let mut map = StrMap::new();

    for (key, value) in entries {
        map.insert(key.to_string(), value.to_string());
    }

    map
}

#[test]
fn registers_what_projects_are_detected_by() {
    let output = register_toolchain("0.2.0");

    assert_eq!(output.name, ".NET");
    assert_eq!(output.plugin_version, "0.2.0");
    assert_eq!(output.exe_names, vec!["dotnet".to_string()]);
    assert_eq!(output.lock_file_names, vec!["packages.lock.json".to_string()]);
    assert!(output.manifest_file_names.is_empty());
    assert!(output.vendor_dir_name.is_none());
    for glob in [
        "*.{csproj,fsproj,vbproj}",
        "Directory.Build.targets",
        "{nuget,NuGet}.{config,Config}",
        "packages.*.lock.json",
    ] {
        assert!(output.config_file_globs.contains(&glob.to_string()), "{glob}");
    }
}

#[test]
fn docker_scaffolds_what_a_restore_needs() {
    let output = define_docker_metadata();

    assert_eq!(output.default_image, "mcr.microsoft.com/dotnet/sdk:latest");
    for glob in [
        "**/*.{csproj,fsproj,vbproj}",
        "**/packages.lock.json",
        "**/*.targets",
        "**/packages.*.lock.json",
    ] {
        assert!(output.scaffold_globs.contains(&glob.to_string()), "{glob}");
    }
}

#[test]
fn the_nearest_solution_is_the_root() {
    // The solution wins, however near the project file is.
    assert_eq!(
        locate_dependencies_root(&[
            level("workspace/nested/proj", &["Proj.csproj", "packages.lock.json"]),
            level("workspace/nested", &[]),
            level("workspace", &["App.slnx"]),
        ]),
        Some(2)
    );
    // Without one, a lock file, also under another name.
    assert_eq!(
        locate_dependencies_root(&[
            level("workspace/a/b", &["B.csproj"]),
            level("workspace/a", &["packages.Proj.lock.json"]),
            level("workspace", &["packages.lock.json"]),
        ]),
        Some(1)
    );
    // Without that, a project file.
    assert_eq!(
        locate_dependencies_root(&[
            level("workspace/proj/src", &["x.cs"]),
            level("workspace/proj", &["Proj.csproj"]),
            level("workspace", &[]),
        ]),
        Some(1)
    );
    assert_eq!(
        locate_dependencies_root(&[level("workspace/empty", &["marker.txt"])]),
        None
    );
}

#[test]
fn restores_are_locked_where_a_lock_file_is() {
    let plain = DirTree {
        files: vec!["App.sln".into()],
        dirs: vec![],
    };
    let locked = DirTree {
        files: vec![],
        dirs: vec![SubDir {
            name: "proj".into(),
            tree: DirTree {
                files: vec!["packages.Proj.lock.json".into()],
                dirs: vec![],
            },
        }],
    };
    let config = DotnetToolchainConfig {
        restore_args: vec!["--verbosity".into(), "minimal".into()],
        ..DotnetToolchainConfig::default()
    };

    let command = install_dependencies(&DotnetToolchainConfig::default(), &plain);
    assert_eq!(command.command, "dotnet");
    assert_eq!(command.args, vec!["restore"]);
    assert_eq!(
        install_dependencies(&DotnetToolchainConfig::default(), &locked).args,
        vec!["restore", "--locked-mode"]
    );
    assert_eq!(
        install_dependencies(&config, &locked).args,
        vec!["restore", "--locked-mode", "--verbosity", "minimal"]
    );
}

#[test]
fn lock_files_are_hashed_instead_of_packages() {
    let configs = map(&[("/workspace/Directory.Build.props", "<Project />")]);
    let locks = map(&[("/workspace/proj/packages.lock.json", "{}")]);
    let packages = map(&[("xunit", "2.8.0")]);

    let contents = hash_task_contents(&configs, &locks, &packages);
    assert_eq!(
        contents["configs"]["/workspace/Directory.Build.props"].as_str(),
        Some("<Project />")
    );
    assert_eq!(
        contents["lockfiles"]["/workspace/proj/packages.lock.json"].as_str(),
        Some("{}")
    );
    assert!(contents.get("packages").is_none());

    let contents = hash_task_contents(&configs, &StrMap::new(), &packages);
    assert_eq!(contents["packages"]["xunit"].as_str(), Some("2.8.0"));
    assert!(contents.get("lockfiles").is_none());
    assert_ne!(
        contents,
        hash_task_contents(&StrMap::new(), &StrMap::new(), &packages)
    );
}

#[test]
fn config_files_are_hashed_from_the_project_up() {
    let files = hashed_config_files(&[
        level("workspace/core", &["Core.csproj", "Directory.Build.targets"]),
        level("workspace", &["NuGet.Config", "Directory.Build.rsp", "global.json"]),
    ]);

    assert_eq!(
        files,
        vec![
            path("workspace/core/Directory.Build.targets"),
            path("workspace/Directory.Build.rsp"),
            path("workspace/NuGet.Config"),
            path("workspace/global.json"),
        ]
    );
}

#[test]
fn package_sets_are_remembered_as_text() {
    let set = map(&[("A", "1"), ("quote\"", "*")]);
    let text = write_package_set(&set).unwrap();

    assert_eq!(text, r#"{"A":"1","quote\"":"*"}"#);
    assert_eq!(read_package_set(&text).unwrap(), set);
    assert!(read_package_set("x").is_err());
    assert!(read_package_set("[]").is_err());
    assert!(read_package_set(r#"{"A":1,"A":"1"}"#).is_err());
}

#[test]
fn package_sets_are_looked_up_on_three_levels() {
    match lookup_packages(Some(r#"{"A":"1"}"#), Some(map(&[("B", "2")]))).unwrap() {
        PackageLookup::Remembered(set) => assert_eq!(set, map(&[("A", "1")])),
        other => panic!("unexpected {other:?}"),
    }
    match lookup_packages(None, Some(map(&[("B", "2")]))).unwrap() {
        PackageLookup::Cached(set) => assert_eq!(set, map(&[("B", "2")])),
        other => panic!("unexpected {other:?}"),
    }
    assert!(matches!(
        lookup_packages(None, None).unwrap(),
        PackageLookup::Evaluate
    ));
    assert!(lookup_packages(Some("{"), None).is_err());
}

#[test]
fn only_complete_evaluations_make_a_complete_set() {
    let evaluation = |version: &str| {
        Some(
            parse_msbuild_output(&format!(
                r#"{{"Items": {{"PackageReference": [{{"Identity": "A", "Version": "{version}"}}]}}}}"#
            ))
            .unwrap(),
        )
    };

    let whole = evaluated_packages(true, &[evaluation("1"), evaluation("2")]);
    assert!(whole.complete);
    assert_eq!(whole.packages, map(&[("A", "2")]));

    let partial = evaluated_packages(true, &[evaluation("1"), None]);
    assert!(!partial.complete);
    assert_eq!(partial.packages, map(&[("A", "1")]));

    let none = evaluated_packages(false, &[evaluation("1")]);
    assert!(!none.complete);
    assert!(none.packages.is_empty());

    // No project file at all: there is nothing that is missing.
    assert!(evaluated_packages(true, &[]).complete);
}

#[test]
fn build_output_is_pruned_in_every_root() {
    assert_eq!(
        prune_docker(&[path("workspace"), path("workspace/app")]),
        vec![
            path("workspace/bin"),
            path("workspace/obj"),
            path("workspace/app/bin"),
            path("workspace/app/obj"),
        ]
    );
    assert!(prune_docker(&[]).is_empty());
}

#[test]
fn setup_follows_the_configured_version() {
    let config = DotnetToolchainConfig::default();
    let rooted = DotnetToolchainConfig {
        dotnet_root: Some("/opt/dotnet".into()),
        ..DotnetToolchainConfig::default()
    };
    let channel = || Some(Ok(SdkVersion::Channel("8.0".into())));

    assert_eq!(setup_toolchain(&config, None, None, false), SetupPlan::Skip);
    assert_eq!(
        setup_toolchain(&config, channel(), None, false),
        SetupPlan::Fail(
            "Unable to resolve the host home directory for the default `~/.dotnet` install root."
                .into()
        )
    );
    assert_eq!(
        setup_toolchain(&config, Some(Err("unsupported".into())), Some("/home/x"), false),
        SetupPlan::Fail("unsupported".into())
    );
    assert_eq!(
        setup_toolchain(
            &config,
            Some(Ok(SdkVersion::Exact("8.0.404".into()))),
            Some("/home/x/"),
            true
        ),
        SetupPlan::Install(InstallPlan {
            install_root: "/home/x/.dotnet".into(),
            sdk_dir: Some("/home/x/.dotnet/sdk/8.0.404".into()),
            version_args: vec!["-Version".into(), "8.0.404".into()],
        })
    );
    assert_eq!(
        setup_toolchain(&rooted, channel(), None, false),
        SetupPlan::Install(InstallPlan {
            install_root: "/opt/dotnet".into(),
            sdk_dir: None,
            version_args: vec!["--channel".into(), "8.0".into()],
        })
    );
}

#[test]
fn install_scripts_fit_the_host() {
    assert_eq!(install_script_file_name(true), "dotnet-install.ps1");
    assert_eq!(install_script_file_name(false), "dotnet-install.sh");
    assert_eq!(
        install_script_url(true),
        "https://dot.net/v1/dotnet-install.ps1"
    );
    assert_eq!(
        install_script_url(false),
        "https://dot.net/v1/dotnet-install.sh"
    );
    assert_eq!(
        install_version_args(&SdkVersion::Exact("8.0.404".into()), false),
        vec!["--version", "8.0.404"]
    );
    assert_eq!(
        install_version_args(&SdkVersion::Channel("lts".into()), true),
        vec!["-Channel", "lts"]
    );
}

#[test]
fn install_commands_fit_the_host() {
    let plan = InstallPlan {
        install_root: "/home/x/.dotnet".into(),
        sdk_dir: None,
        version_args: vec!["--channel".into(), "8.0".into()],
    };

    let unix = install_command(false, "/w/dotnet-install.sh", &plan);
    assert_eq!(unix.command, "bash");
    assert_eq!(
        unix.args,
        vec![
            "/w/dotnet-install.sh",
            "--install-dir",
            "/home/x/.dotnet",
            "--no-path",
            "--channel",
            "8.0"
        ]
    );
    let windows = install_command(true, "C:\\w\\dotnet-install.ps1", &plan);
    assert_eq!(windows.command, "powershell.exe");
    assert_eq!(
        windows.args,
        vec![
            "-NoProfile",
            "-ExecutionPolicy",
            "Bypass",
            "-File",
            "C:\\w\\dotnet-install.ps1",
            "-InstallDir",
            "/home/x/.dotnet",
            "-NoPath",
            "--channel",
            "8.0"
        ]
    );
    assert_eq!(
        install_script_file(&path("workspace"), "dotnet-install.sh"),
        path("workspace/.moon/cache/dotnet-toolchain/dotnet-install.sh")
    );

    let output = |exit_code: i32| ProcessOutput {
        exit_code,
        stdout: "out".into(),
        stderr: "err".into(),
    };
    assert_eq!(install_result(&output(0)), Ok(()));
    assert_eq!(
        install_result(&output(127)),
        Err("dotnet-install failed with exit code 127:\nout\nerr".into())
    );
}

#[test]
fn tasks_are_pointed_at_an_sdk() {
    let config = DotnetToolchainConfig::default();
    let rooted = DotnetToolchainConfig {
        dotnet_root: Some("/custom/dotnet".into()),
        ..DotnetToolchainConfig::default()
    };

    assert_eq!(
        resolve_dotnet_root(&rooted, Some("/env"), Some("/home/x"), true).as_deref(),
        Some("/custom/dotnet")
    );
    assert_eq!(
        resolve_dotnet_root(&config, Some("/env"), Some("/home/x"), true).as_deref(),
        Some("/env")
    );
    assert_eq!(
        resolve_dotnet_root(&config, Some(""), Some("/home/x"), true).as_deref(),
        Some("/home/x/.dotnet")
    );
    // A mere cache directory is no SDK.
    assert_eq!(
        resolve_dotnet_root(&config, None, Some("/home/x"), false),
        None
    );

    let injected = extend_task_command(Some("/custom/dotnet"));
    assert_eq!(injected.env.get("DOTNET_ROOT").unwrap(), "/custom/dotnet");
    assert_eq!(
        injected.env.get("DOTNET_CLI_TELEMETRY_OPTOUT").unwrap(),
        "1"
    );
    assert_eq!(injected.paths, vec!["/custom/dotnet"]);

    let nothing = extend_task_command(None);
    assert!(nothing.env.is_empty());
    assert!(nothing.paths.is_empty());
}

#[test]
fn installed_sdks_are_found_by_tasks() {
    for config in [
        DotnetToolchainConfig::default(),
        DotnetToolchainConfig {
            dotnet_root: Some("/opt/dotnet".into()),
            ..DotnetToolchainConfig::default()
        },
    ] {
        let version = Some(Ok(SdkVersion::Channel("8.0".into())));

        match setup_toolchain(&config, version, Some("/home/x"), false) {
            SetupPlan::Install(plan) => assert_eq!(
                resolve_dotnet_root(&config, None, Some("/home/x"), true),
                Some(plan.install_root)
            ),
            other => panic!("unexpected {other:?}"),
        }
    }
}

#[test]
fn the_nearest_global_json_governs() {
    assert_eq!(
        find_global_json(&[
            level("workspace/a/b", &["Global.json"]),
            level("workspace/a", &["global.json"]),
            level("workspace", &["global.json"]),
        ]),
        Some(path("workspace/a/global.json"))
    );
    assert_eq!(find_global_json(&[level("workspace", &[])]), None);

    let content = r#"{"sdk": {"version": "9.0.100"}, "test": {"runner": "Microsoft.Testing.Platform"}}"#;
    assert_eq!(sdk_version(content).as_deref(), Some("9.0.100"));
    assert!(selects_test_platform(content));
    assert!(!selects_test_platform("{}"));
    assert!(!selects_test_platform("not json"));
    assert_eq!(sdk_version(r#"{"sdk": {"version": 9}}"#), None);
    assert_eq!(
        read_setting(&serde_json::Value::Null, "sdk", "version"),
        None
    );
}

#[test]
fn configured_versions_stand_for_sdks() {
    let sdk = dotnet_toolchain::tier3::sdk_version;

    assert_eq!(
        sdk(&ConfiguredVersion::Semantic("8.0.404".into())),
        Ok(SdkVersion::Exact("8.0.404".into()))
    );
    assert_eq!(
        sdk(&ConfiguredVersion::Req("8.0".into())),
        Ok(SdkVersion::Channel("8.0".into()))
    );
    assert_eq!(
        sdk(&ConfiguredVersion::Alias("lts".into())),
        Ok(SdkVersion::Channel("lts".into()))
    );

    for (version, shown) in [
        (ConfiguredVersion::Any, "*"),
        (ConfiguredVersion::ReqAny("^8 || ^9".into()), "^8 || ^9"),
        (ConfiguredVersion::Calendar("2024-02-26".into()), "2024-02-26"),
        (ConfiguredVersion::Canary, "canary"),
    ] {
        assert_eq!(
            sdk(&version),
            Err(format!("{shown} is no .NET SDK version or channel."))
        );
    }
}

#[test]
fn tools_are_restored_from_the_nearest_manifest() {
    let levels = vec![
        level("workspace/app/.config", &["other.json"]),
        level("workspace/.config", &["dotnet-tools.json"]),
        level("root/.config", &["dotnet-tools.json"]),
    ];
    let restore = dotnet_toolchain::tier2::setup_environment(&levels).unwrap();

    assert_eq!(restore.steps, 1);
    assert_eq!(restore.command.command, "dotnet");
    assert_eq!(restore.command.args, vec!["tool", "restore"]);
    assert_eq!(restore.manifest, path("workspace/.config/dotnet-tools.json"));
    assert!(dotnet_toolchain::tier2::setup_environment(&levels[..1]).is_none());
}
