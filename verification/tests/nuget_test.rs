use dotnet_toolchain::msbuild::{parse_msbuild_output, MsbuildEvaluation};
use dotnet_toolchain::nuget::{
    is_readable_lock_file, is_readable_manifest, is_readable_requirement, parse_lock,
    parse_lock_file, parse_manifest, read_lock, read_locked_packages, read_manifest, LockError,
    ManifestDependency,
};
use moon_config::{UnresolvedVersionSpec, VersionSpec};

const LOCK: &str = r#"{
  "version": 1,
  "dependencies": {
    "net8.0": {
      "Newtonsoft.Json": {
        "type": "Direct",
        "requested": "[13.0.3, )",
        "resolved": "13.0.3",
        "contentHash": "HrC5BXdl00IP9zeV+0Z848QWPAoCr9P3bDEZguI+gkLcBKAOxix/tLEAAHC+UvDNPv4a2d18lOReHMOagPa+zQ=="
      },
      "lib": {
        "type": "project",
        "dependencies": { "Newtonsoft.Json": "[13.0.3, )" }
      }
    },
    "net9.0": {
      "Newtonsoft.Json": {
        "type": "Direct",
        "requested": "[13.0.3, )",
        "resolved": "13.0.3",
        "contentHash": "HrC5BXdl00IP9zeV+0Z848QWPAoCr9P3bDEZguI+gkLcBKAOxix/tLEAAHC+UvDNPv4a2d18lOReHMOagPa+zQ=="
      },
      "Other": {
        "type": "Transitive",
        "requested": "1.2.3",
        "resolved": "1.2.3"
      }
    },
    "netstandard2.0": {
      "Newtonsoft.Json": { "type": "Direct", "resolved": "12.0.1", "contentHash": "abc" }
    }
  }
}"#;

#[test]
fn lock_files_list_each_package_once() {
    let lock = parse_lock_file(LOCK).unwrap();
    assert!(is_readable_lock_file(&lock));
    let packages = parse_lock(&lock);

    assert_eq!(packages.keys(), vec!["Newtonsoft.Json", "Other"]);

    let newtonsoft = packages.get("Newtonsoft.Json").unwrap();
    assert_eq!(newtonsoft.len(), 2);
    assert_eq!(newtonsoft[0].version.as_ref().unwrap().to_string(), "13.0.3");
    assert!(newtonsoft[0].hash.as_deref().unwrap().starts_with("HrC5"));
    // A NuGet range is no moon version requirement.
    assert_eq!(newtonsoft[0].req, None);
    assert_eq!(
        newtonsoft[1].version,
        Some(VersionSpec::parse("12.0.1").unwrap())
    );

    let other = packages.get("Other").unwrap();
    assert_eq!(other.len(), 1);
    assert_eq!(
        other[0].req,
        Some(UnresolvedVersionSpec::parse("1.2.3").unwrap())
    );
    assert_eq!(other[0].hash, None);
}

#[test]
fn lock_files_of_another_shape_are_errors() {
    assert!(matches!(parse_lock_file("{"), Err(LockError::Json(_))));
    assert!(matches!(parse_lock_file("[]"), Err(LockError::Shape)));
    assert!(matches!(
        parse_lock_file(r#"{"dependencies": {"net8.0": 1}}"#),
        Err(LockError::Shape)
    ));
    assert!(parse_lock_file(r#"{"version": 1}"#).unwrap().is_empty());
    assert!(read_lock(&serde_json::Value::Bool(true)).is_none());
}

#[test]
fn versions_that_read_alike_are_one_package() {
    let lock = parse_lock_file(
        r#"{"dependencies": {"a": {"P": {"type": "Direct", "resolved": "1.2.3"}}, "b": {"P": {"type": "Direct", "resolved": "v1.2.3"}}, "c": {"P": {"type": "Direct", "resolved": "not a version!"}}}}"#,
    )
    .unwrap();
    let packages = parse_lock(&lock);
    let listed = packages.get("P").unwrap();

    assert_eq!(listed.len(), 2);
    assert_eq!(listed[1].version, None);
}

#[test]
fn alternatives_are_read_within_bounds() {
    assert!(is_readable_requirement("[13.0.3, )"));
    assert!(is_readable_requirement("12345678901234567890"));
    assert!(is_readable_requirement("1.0 || 2.0"));
    assert!(!is_readable_requirement("1 || 2 || 3"));
    assert!(!is_readable_requirement("1 || 12345678901"));
    // Digits count for each alternative on its own.
    assert!(is_readable_requirement("10.0.100 || 11.0.200"));
    assert!(is_readable_requirement("123456789||987654321"));
    // So do digits in a row.
    assert!(is_readable_requirement("10.0.19041.12345 || 11"));
    assert!(!is_readable_requirement("10.0.1904112345 || 11"));
    assert!(!is_readable_requirement("10.*12345678901 || 11"));
    // Digits meet where a wildcard between them is taken out.
    assert!(is_readable_requirement("12345.*6789 || 11"));
    assert!(!is_readable_requirement("12345.*67890 || 11"));
    // One bar separates nothing.
    assert!(is_readable_requirement("1|12345678901"));
    assert!(is_readable_requirement("1|2|3|4|12345678901"));
    // Three bars separate two alternatives, four may separate three.
    assert!(is_readable_requirement("1 ||| 2"));
    assert!(!is_readable_requirement("1 |||| 2"));
    // What stands between two bars can vanish, and the bars meet.
    assert!(!is_readable_requirement("1|.*|12345678901"));

    let lock = parse_lock_file(
        r#"{"dependencies": {"a": {"P": {"type": "Direct", "requested": "1 || 2 || 3"}}}}"#,
    )
    .unwrap();
    assert!(!is_readable_lock_file(&lock));
}

#[test]
fn only_ranges_that_are_looked_at_have_to_be_readable() {
    // A project, and a package that is listed already.
    let content = r#"{"dependencies": {
      "a": {
        "P": {"type": "Direct", "requested": "1 || 2", "resolved": "1.0.0"},
        "Q": {"type": "PROJECT", "requested": "1 || 2 || 3"}
      },
      "b": {"P": {"type": "Direct", "requested": "1 || 2 || 3", "resolved": "1.0.0"}}
    }}"#;
    let packages = read_locked_packages(content).unwrap();

    assert_eq!(packages.keys(), vec!["P"]);
    assert_eq!(packages.get("P").unwrap().len(), 1);
    assert_eq!(
        packages.get("P").unwrap()[0].req,
        Some(UnresolvedVersionSpec::parse("1 || 2").unwrap())
    );
    assert_eq!(
        packages,
        parse_lock(&parse_lock_file(content).unwrap())
    );
}

#[test]
fn lock_texts_are_read_or_refused() {
    assert_eq!(
        read_locked_packages(LOCK).unwrap(),
        parse_lock(&parse_lock_file(LOCK).unwrap())
    );
    assert!(matches!(read_locked_packages("{"), Err(LockError::Json(_))));
    assert!(matches!(read_locked_packages("[]"), Err(LockError::Shape)));
    assert!(matches!(
        read_locked_packages(
            r#"{"dependencies": {"a": {"P": {"type": "Direct", "requested": "1 || 2 || 3"}}}}"#
        ),
        Err(LockError::Range)
    ));
}

fn manifest_evaluation() -> MsbuildEvaluation {
    parse_msbuild_output(
        r#"{
          "Properties": {"IsPackable": "True"},
          "Items": {
            "PackageReference": [
              {"Identity": "Central"},
              {"Identity": "Pinned", "Version": "13.0.3"},
              {"Identity": "Range", "Version": "[1.0,2.0)"}
            ],
            "PackageVersion": [
              {"Identity": "Central", "Version": "4.5.6"},
              {"Identity": "Floating"}
            ]
          }
        }"#,
    )
    .unwrap()
}

#[test]
fn project_files_declare_their_references() {
    let evaluation = manifest_evaluation();
    assert!(is_readable_manifest("App.csproj", &evaluation));
    let manifest = parse_manifest("App.csproj", &evaluation);
    assert_eq!(read_manifest("App.csproj", &evaluation).as_ref(), Some(&manifest));

    assert!(manifest.publishable);
    assert_eq!(
        manifest.dependencies.keys(),
        vec!["Central", "Pinned", "Range"]
    );
    assert_eq!(
        manifest.dependencies.get("Central").unwrap(),
        &ManifestDependency::Inherited
    );
    assert_eq!(
        manifest.dependencies.get("Pinned").unwrap(),
        &ManifestDependency::Version(UnresolvedVersionSpec::parse("13.0.3").unwrap())
    );
    assert_eq!(
        manifest.dependencies.get("Range").unwrap(),
        &ManifestDependency::Reference("[1.0,2.0)".into())
    );
}

#[test]
fn central_manifests_declare_versions() {
    let evaluation = manifest_evaluation();
    let manifest = parse_manifest("directory.packages.PROPS", &evaluation);

    assert!(!manifest.publishable);
    assert_eq!(manifest.dependencies.keys(), vec!["Central", "Floating"]);
    assert_eq!(
        manifest.dependencies.get("Central").unwrap(),
        &ManifestDependency::Version(UnresolvedVersionSpec::parse("4.5.6").unwrap())
    );
    assert_eq!(
        manifest.dependencies.get("Floating").unwrap(),
        &ManifestDependency::Version(UnresolvedVersionSpec::parse("*").unwrap())
    );
}

#[test]
fn alternatives_are_declared_like_any_version() {
    let evaluation = parse_msbuild_output(
        r#"{"Items": {"PackageReference": [{"Identity": "A", "Version": "10.0.100 || 11.0.200"}]}}"#,
    )
    .unwrap();

    assert!(is_readable_manifest("App.csproj", &evaluation));
    assert_eq!(
        parse_manifest("App.csproj", &evaluation).dependencies.get("A").unwrap(),
        &ManifestDependency::Version(
            UnresolvedVersionSpec::parse("10.0.100 || 11.0.200").unwrap()
        )
    );
}

#[test]
fn manifests_with_unreadable_versions_are_refused() {
    let evaluation = parse_msbuild_output(
        r#"{"Items": {"PackageReference": [{"Identity": "A", "Version": "1 || 2 || 3"}]}}"#,
    )
    .unwrap();

    assert_eq!(read_manifest("App.csproj", &evaluation), None);
    assert!(read_manifest("Directory.Packages.props", &evaluation).is_some());
}
