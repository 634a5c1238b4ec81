use dotnet_toolchain::msbuild::{
    detect_failed_projects, escape_msbuild_include, eval_property_names, evaluate_project,
    evaluate_project_args, evaluate_projects_batch, evaluate_projects_batch_args,
    moon_eval_targets_xml, normalize_path_key, parse_batch_output, parse_msbuild_output,
    read_evaluation, retried_projects_batch, traversal_project_xml, BatchStep, EvalError,
    ProcessOutput, EVAL_ITEMS, EVAL_PROPERTIES,
};
use dotnet_toolchain::msbuild::MsbuildEvaluation;
use dotnet_toolchain::str_map::StrMap;

// Abridged real output shape from `dotnet msbuild -getProperty:... -getItem:...`
// on .NET SDK 8+.
const SAMPLE: &str = r#"{
  "Properties": {
    "TargetFramework": "",
    "TargetFrameworks": "net8.0;net9.0",
    "OutputType": "Exe",
    "IsTestProject": "",
    "IsPackable": "true",
    "RestorePackagesWithLockFile": ""
  },
  "Items": {
    "ProjectReference": [
      {
        "Identity": "..\\LibA\\LibA.csproj",
        "FullPath": "C:\\abs\\path\\LibA\\LibA.csproj",
        "Filename": "LibA",
        "Extension": ".csproj",
        "DefiningProjectFullPath": "C:\\abs\\path\\App\\App.csproj"
      }
    ],
    "PackageReference": [
      { "Identity": "Newtonsoft.Json", "Version": "13.0.3" },
      { "Identity": "NoVersionPkg" }
    ]
  }
}"#;

#[test]
fn parses_real_output_shape() {
    let eval = parse_msbuild_output(SAMPLE).unwrap();

    assert_eq!(eval.property("OutputType"), "Exe");
    assert_eq!(eval.property("TargetFrameworks"), "net8.0;net9.0");
    assert_eq!(eval.property("TargetFramework"), "");
    assert_eq!(eval.property("IsPackable"), "true");
    assert_eq!(
        eval.project_reference_paths(),
        vec!["C:\\abs\\path\\LibA\\LibA.csproj".to_string()]
    );

    let packages = eval.package_references();
    assert_eq!(packages.get("Newtonsoft.Json").unwrap(), "13.0.3");
    assert_eq!(packages.get("NoVersionPkg").unwrap(), "*");
}

#[test]
fn skips_leading_noise_before_json() {
    let noisy = format!("some warning: blah\nanother line\n{SAMPLE}");
    let eval = parse_msbuild_output(&noisy).unwrap();

    assert_eq!(eval.property("OutputType"), "Exe");
}

#[test]
fn errors_when_no_json() {
    assert!(parse_msbuild_output("MSBUILD : error MSB1063: ...").is_err());
}

#[test]
fn empty_items_and_properties() {
    let eval = parse_msbuild_output("{}").unwrap();

    assert_eq!(eval.property("OutputType"), "");
    assert!(eval.project_reference_paths().is_empty());
    assert!(eval.package_references().is_empty());
}

// Abridged real output shape from a batched traversal invocation
// (`-t:MoonCollect -getItem:MoonEval`), including MSBuild's well-known
// metadata noise and a Windows 8.3 short path in OriginalItemSpec.
const BATCH_SAMPLE: &str = r#"{
  "Items": {
    "MoonEval": [
      {
        "Identity": "C:\\long\\path\\app\\App.csproj",
        "MSBuildSourceProjectFile": "C:\\long\\path\\app\\App.csproj",
        "MSBuildSourceTargetName": "MoonEvalInner",
        "OriginalItemSpec": "C:\\LONGPA~1\\app\\App.csproj",
        "OutputType": "Exe",
        "TargetFramework": "net8.0",
        "TargetFrameworks": "",
        "IsTestProject": "",
        "IsPackable": "",
        "RestorePackagesWithLockFile": "",
        "MoonProjectRefs": "C:\\long\\path\\lib\\Lib.csproj|C:\\long\\path\\core\\Core.csproj",
        "MoonPackageRefs": "Newtonsoft.Json@13.0.3|CpmPackage@",
        "Filename": "App",
        "Extension": ".csproj"
      },
      {
        "Identity": "C:\\long\\path\\multi\\Multi.csproj",
        "MSBuildSourceProjectFile": "C:\\long\\path\\multi\\Multi.csproj",
        "OriginalItemSpec": "C:\\long\\path\\multi\\Multi.csproj",
        "OutputType": "Library",
        "TargetFramework": "",
        "TargetFrameworks": "net8.0;netstandard2.0",
        "IsTestProject": "",
        "IsPackable": "",
        "RestorePackagesWithLockFile": "",
        "MoonProjectRefs": "",
        "MoonPackageRefs": ""
      }
    ]
  }
}"#;

#[test]
fn parses_batch_output_per_project() {
    let results = parse_batch_output(BATCH_SAMPLE).unwrap();

    // Keyed by both the expanded path and the 8.3 short form we passed.
    let app = results.get("c:/long/path/app/app.csproj").unwrap();
    assert!(results.contains_key("c:/longpa~1/app/app.csproj"));

    assert_eq!(app.property("OutputType"), "Exe");
    assert_eq!(app.property("TargetFramework"), "net8.0");
    assert_eq!(
        app.project_reference_paths(),
        vec![
            "C:\\long\\path\\lib\\Lib.csproj".to_string(),
            "C:\\long\\path\\core\\Core.csproj".to_string(),
        ]
    );

    let packages = app.package_references();
    assert_eq!(packages.get("Newtonsoft.Json").unwrap(), "13.0.3");
    // Versionless (CPM-style) entries fall back to `*`.
    assert_eq!(packages.get("CpmPackage").unwrap(), "*");

    let multi = results.get("c:/long/path/multi/multi.csproj").unwrap();
    assert_eq!(multi.property("TargetFrameworks"), "net8.0;netstandard2.0");
    assert!(multi.project_reference_paths().is_empty());
    assert!(multi.package_references().is_empty());
}

#[test]
fn batch_output_without_items_is_empty() {
    assert!(parse_batch_output("{}").unwrap().is_empty());
}

#[test]
fn escapes_msbuild_includes() {
    assert_eq!(
        escape_msbuild_include("C:\\repo\\A & B\\$(odd)@*?;<x>\"100%\".csproj"),
        "C:\\repo\\A &amp; B\\%24(odd)%40%2A%3F%3B&lt;x&gt;&quot;100%25&quot;.csproj"
    );
}

#[test]
fn targets_xml_covers_all_eval_properties() {
    let xml = moon_eval_targets_xml();

    for prop in EVAL_PROPERTIES.split(',') {
        assert!(xml.contains(&format!("<{prop}>$({prop})</{prop}>")), "{prop}");
    }

    assert!(xml.contains("MoonProjectRefs"));
    assert!(xml.contains("MoonPackageRefs"));
}

#[test]
fn traversal_xml_lists_projects_and_injects_both_hooks() {
    let xml = traversal_project_xml(&[
        "C:\\repo\\a\\a.csproj".to_string(),
        "/home/x/b & c/b.csproj".to_string(),
    ]);

    assert!(xml.contains("Include=\"C:\\repo\\a\\a.csproj\""));
    assert!(xml.contains("Include=\"/home/x/b &amp; c/b.csproj\""));
    // Both hooks: plain SDK projects import CustomAfterMicrosoftCommonTargets,
    // multi-TFM outer builds import the CrossTargeting variant instead.
    assert!(xml.contains("CustomAfterMicrosoftCommonTargets=$(MSBuildThisFileDirectory)moon-eval.targets"));
    assert!(xml.contains("CustomAfterMicrosoftCommonCrossTargetingTargets=$(MSBuildThisFileDirectory)moon-eval.targets"));
    assert!(xml.contains("BuildInParallel=\"true\""));
    assert!(xml.contains("ContinueOnError=\"WarnAndContinue\""));
}

#[test]
fn detects_failed_projects_across_short_and_long_path_forms() {
    // Real shape from GitHub's windows-latest runners: we pass a path
    // with an 8.3 short-name prefix (from %TEMP%), MSBuild's error line
    // prints the expanded long form.
    let output = "C:\\Users\\runneradmin\\AppData\\Local\\Temp\\scratch\\broken\\Broken.csproj(1,41): error MSB4025: The project file could not be loaded.";

    let paths = vec![
        "C:\\Users\\RUNNER~1\\AppData\\Local\\Temp\\scratch\\broken/Broken.csproj".to_string(),
        "C:\\Users\\RUNNER~1\\AppData\\Local\\Temp\\scratch\\ok\\Ok.csproj".to_string(),
    ];

    assert_eq!(detect_failed_projects(output, &paths), vec![paths[0].clone()]);
    assert!(detect_failed_projects("no errors here", &paths).is_empty());
}

#[test]
fn normalizes_path_keys() {
    assert_eq!(
        normalize_path_key("C:\\Abs\\Path\\LibA\\LibA.csproj"),
        "c:/abs/path/liba/liba.csproj"
    );
    assert_eq!(normalize_path_key("/home/x/App.csproj"), "/home/x/app.csproj");
}

#[test]
fn path_keys_lower_letters_of_every_script() {
    assert_eq!(normalize_path_key("C:\\ÄPFEL\\Ω.csproj"), "c:/äpfel/ω.csproj");
    // A key is its own key, whatever letters it holds.
    for path in ["C:\\ÄPFEL\\K.csproj", "/İ/ΑΣ/ΑΣΑ.csproj", "/straße/ẞ.csproj"] {
        let key = normalize_path_key(path);

        assert_eq!(normalize_path_key(&key), key);
        assert_eq!(normalize_path_key(&path.replace('/', "\\")), key);
        assert_eq!(normalize_path_key(&path.to_ascii_lowercase()), key);
        assert!(!key.contains(|c: char| c == '\\' || c.is_ascii_uppercase()));
    }
}

#[test]
fn the_requested_properties_are_listed() {
    assert_eq!(eval_property_names().join(","), EVAL_PROPERTIES);
    assert_eq!(eval_property_names().len(), EVAL_PROPERTIES.split(',').count());
}

#[test]
fn targets_xml_is_exact() {
    let properties = EVAL_PROPERTIES
        .split(',')
        .map(|prop| format!("        <{prop}>$({prop})</{prop}>\n"))
        .collect::<String>();

    assert_eq!(
        moon_eval_targets_xml(),
        format!(
            r#"<Project>
  <Target Name="MoonEvalInner" Returns="@(_MoonEvalResult)">
    <ItemGroup>
      <_MoonEvalResult Include="$(MSBuildProjectFullPath)">
{properties}        <MoonProjectRefs>@(ProjectReference->'%(FullPath)', '|')</MoonProjectRefs>
        <MoonPackageRefs>@(PackageReference->'%(Identity)@%(Version)', '|')</MoonPackageRefs>
      </_MoonEvalResult>
    </ItemGroup>
  </Target>
</Project>
"#
        )
    );
}

#[test]
fn traversal_xml_is_exact() {
    assert_eq!(
        traversal_project_xml(&["/x/a.csproj".to_string()]),
        r#"<Project DefaultTargets="MoonCollect">
  <ItemGroup>
    <MoonProject Include="/x/a.csproj" />
  </ItemGroup>
  <Target Name="MoonCollect" Returns="@(MoonEval)">
    <MSBuild
      Projects="@(MoonProject)"
      Targets="MoonEvalInner"
      BuildInParallel="true"
      ContinueOnError="WarnAndContinue"
      Properties="CustomAfterMicrosoftCommonTargets=$(MSBuildThisFileDirectory)moon-eval.targets;CustomAfterMicrosoftCommonCrossTargetingTargets=$(MSBuildThisFileDirectory)moon-eval.targets">
      <Output TaskParameter="TargetOutputs" ItemName="MoonEval" />
    </MSBuild>
  </Target>
</Project>
"#
    );
}

#[test]
fn answers_of_another_shape_are_errors() {
    assert!(matches!(
        parse_msbuild_output("MSBUILD : error MSB1063: ..."),
        Err(EvalError::NoJson)
    ));
    assert!(matches!(
        parse_msbuild_output("{ not json"),
        Err(EvalError::Json(_))
    ));
    assert!(matches!(
        parse_msbuild_output(r#"{"Properties": {"A": 1}}"#),
        Err(EvalError::Shape)
    ));
    assert!(matches!(
        parse_msbuild_output(r#"{"Items": {"A": "x"}}"#),
        Err(EvalError::Shape)
    ));
    assert!(matches!(
        parse_msbuild_output(r#"{"Items": null}"#),
        Err(EvalError::Shape)
    ));
    // Other members are ignored, and so is metadata that is no text.
    let eval = parse_msbuild_output(
        r#"{"Other": 1, "Items": {"PackageReference": [7, {"Identity": 1}, {"Identity": "A", "Version": ""}]}}"#,
    )
    .unwrap();
    assert_eq!(eval.package_references().keys(), vec!["A"]);
    assert_eq!(eval.package_references().get("A").unwrap(), "*");
}

#[test]
fn parsed_parts_are_read_like_their_text() {
    let document: serde_json::Value = serde_json::from_str(SAMPLE).unwrap();
    let mut properties = StrMap::new();
    for (name, value) in document["Properties"].as_object().unwrap() {
        properties.insert(name.clone(), value.as_str().unwrap().into());
    }
    let lists = document["Items"]
        .as_object()
        .unwrap()
        .iter()
        .map(|(name, list)| (name.clone(), list.as_array().unwrap().clone()))
        .collect::<Vec<_>>();

    assert_eq!(
        read_evaluation(properties, &lists),
        parse_msbuild_output(SAMPLE).unwrap()
    );
}

#[test]
fn fields_are_given_once() {
    for content in [
        r#"{"Properties": {}, "Properties": {}}"#,
        r#"{"Items": {}, "Other": 1, "Items": {}}"#,
        // The same name in another spelling.
        r#"{"Properties": {}, "Propertie\u0073": {}}"#,
        // The first of two equal names has to fit as well.
        r#"{"Properties": {"A": 1, "A": "x"}}"#,
        r#"{"Items": {"A": 1, "A": []}}"#,
    ] {
        assert!(matches!(
            parse_msbuild_output(content),
            Err(EvalError::Shape)
        ));
    }

    let eval = parse_msbuild_output(
        r#"{"Other": 1, "Other": 2, "Properties": {"A": "x", "A": "y"}}"#,
    )
    .unwrap();
    assert_eq!(eval.property("A"), "y");
}

#[test]
fn other_members_are_not_looked_into() {
    let deep = format!("{}{}", "[".repeat(200), "]".repeat(200));

    for other in ["1e999", r#""\ud800""#, deep.as_str(), "-0.5E+3", "null", "{}"] {
        let content =
            format!("\t{{\n\"Other\" : {other} ,\r\n\"Properties\":{{\"A\":\"x\"}} }} \n");

        assert_eq!(parse_msbuild_output(&content).unwrap().property("A"), "x");
    }

    assert_eq!(
        parse_msbuild_output("{ } ").unwrap(),
        MsbuildEvaluation::default()
    );
    for content in [
        r#"{"Properties": {},}"#,
        r#"{, "Properties": {}}"#,
        r#"{"Properties" {}}"#,
        r#"{"Properties": {}} x"#,
        r#"{"Properties": {}"#,
        r#"{"Other": 01}"#,
        r#"{"Other": 1x}"#,
        r#"{Other: 1}"#,
        "{} {}",
        "{",
    ] {
        assert!(matches!(
            parse_msbuild_output(content),
            Err(EvalError::Json(_))
        ));
    }
}

#[test]
fn items_go_as_deep_as_a_document_may() {
    let items = |depth: usize| {
        format!(
            "{{\"Items\": {{\"A\": {}{}}}}}",
            "[".repeat(depth),
            "]".repeat(depth)
        )
    };

    // The answer and its items are two levels already.
    assert!(parse_msbuild_output(&items(125)).is_ok());
    assert!(parse_msbuild_output(&items(126)).is_err());
}

#[test]
fn central_package_versions_are_read() {
    let eval = parse_msbuild_output(
        r#"{"Items": {"PackageVersion": [{"Identity": "A", "Version": "1.0"}, {"Identity": "A", "Version": "2.0"}]}}"#,
    )
    .unwrap();

    assert_eq!(eval.package_versions().get("A").unwrap(), "2.0");
    assert!(eval.package_references().is_empty());
}

#[test]
fn package_entries_split_at_the_last_at_sign() {
    let results = parse_batch_output(
        r#"{"Items": {"MoonEval": [{"Identity": "/a.csproj", "MoonPackageRefs": "@scope/x@1|plain||y@2"}]}}"#,
    )
    .unwrap();
    let packages = results.get("/a.csproj").unwrap().package_references();

    assert_eq!(packages.keys(), vec!["@scope/x", "plain", "y"]);
    assert_eq!(packages.get("@scope/x").unwrap(), "1");
    assert_eq!(packages.get("plain").unwrap(), "*");
    assert_eq!(packages.get("y").unwrap(), "2");
}

#[test]
fn batched_lists_carry_references_unchanged() {
    let paths = ["/r/a b/A.csproj", "C:\\r\\B.csproj"];
    let document = format!(
        r#"{{"Items": {{"MoonEval": [{{"Identity": "/r/x.csproj", "OutputType": "Exe", "MoonProjectRefs": "{}"}}]}}}}"#,
        paths.join("|").replace('\\', "\\\\")
    );
    let results = parse_batch_output(&document).unwrap();
    let eval = results.get("/r/x.csproj").unwrap();

    assert_eq!(eval.project_reference_paths(), paths);
    assert_eq!(eval.property("OutputType"), "Exe");
    assert_eq!(eval.property("AssemblyName"), "");
}

#[test]
fn escaped_paths_stay_apart() {
    assert_ne!(
        escape_msbuild_include("a%24b"),
        escape_msbuild_include("a$b")
    );
    assert_eq!(escape_msbuild_include("a%24b"), "a%2524b");
}

#[test]
fn a_path_with_one_slash_is_matched_whole() {
    assert_eq!(
        detect_failed_projects("x/A.csproj(1,1): error", &["x/a.csproj".to_string()]),
        vec!["x/a.csproj"]
    );
    assert!(detect_failed_projects("y/A.csproj(1,1): error", &["x/a.csproj".to_string()]).is_empty());
}

fn output(exit_code: i32, stdout: &str, stderr: &str) -> ProcessOutput {
    ProcessOutput {
        exit_code,
        stdout: stdout.into(),
        stderr: stderr.into(),
    }
}

#[test]
fn invocations_are_exact() {
    assert_eq!(
        evaluate_projects_batch_args("/w/t.proj"),
        vec![
            "msbuild",
            "/w/t.proj",
            "-nologo",
            "-maxCpuCount",
            "-nodeReuse:false",
            "-t:MoonCollect",
            "-getItem:MoonEval",
        ]
    );
    assert_eq!(
        evaluate_project_args("/w/a.csproj"),
        vec![
            "msbuild".to_string(),
            "/w/a.csproj".to_string(),
            "-nologo".to_string(),
            format!("-getProperty:{EVAL_PROPERTIES}"),
            format!("-getItem:{EVAL_ITEMS}"),
        ]
    );
}

#[test]
fn a_failed_batch_is_retried_without_the_offenders() {
    let paths = vec!["/w/a/A.csproj".to_string(), "/w/b/B.csproj".to_string()];
    let failed = output(1, "", "/w/b/B.csproj(1,1): error MSB4025: no");

    match evaluate_projects_batch(&failed, &paths) {
        BatchStep::Retry(remaining) => assert_eq!(remaining, vec!["/w/a/A.csproj"]),
        other => panic!("unexpected {other:?}"),
    }

    // All of them failed: nothing is left to try.
    match evaluate_projects_batch(&failed, &paths[1..]) {
        BatchStep::Finished(Err(EvalError::Failed(message))) => assert_eq!(
            message,
            "Batched MSBuild evaluation failed (exit code 1): /w/b/B.csproj(1,1): error MSB4025: no"
        ),
        other => panic!("unexpected {other:?}"),
    }

    // None of them was named.
    assert!(matches!(
        evaluate_projects_batch(&output(-1, "x", "y"), &paths),
        BatchStep::Finished(Err(EvalError::Failed(_)))
    ));

    match evaluate_projects_batch(&output(0, BATCH_SAMPLE, ""), &paths) {
        BatchStep::Finished(Ok(results)) => assert!(!results.is_empty()),
        other => panic!("unexpected {other:?}"),
    }

    assert!(retried_projects_batch(&failed, &output(0, BATCH_SAMPLE, "")).is_ok());
    match retried_projects_batch(&failed, &output(-12, "a", "b")) {
        Err(EvalError::Failed(message)) => assert!(message.contains("(exit code 1)")),
        other => panic!("unexpected {other:?}"),
    }
}

#[test]
fn single_evaluations_report_what_was_printed() {
    assert_eq!(
        evaluate_project("/w/a.csproj", &output(0, SAMPLE, ""))
            .unwrap()
            .property("OutputType"),
        "Exe"
    );

    match evaluate_project("/w/a.csproj", &output(-2147483648, "out", "err")) {
        Err(EvalError::Failed(message)) => assert_eq!(
            message,
            "MSBuild evaluation failed for /w/a.csproj (exit code -2147483648): outerr"
        ),
        other => panic!("unexpected {other:?}"),
    }
}

#[test]
fn escaped_paths_read_back() {
    let path = "/a%24 b/&lt;c&amp;/@(x);*?\"<>$.csproj";
    let escaped = escape_msbuild_include(path);

    assert_eq!(
        escaped,
        "/a%2524 b/&amp;lt%3Bc&amp;amp%3B/%40(x)%3B%2A%3F&quot;&lt;&gt;%24.csproj"
    );

    let xml = escaped
        .replace("&lt;", "<")
        .replace("&gt;", ">")
        .replace("&quot;", "\"")
        .replace("&amp;", "&");
    let mut read = String::new();
    let mut rest = xml.as_str();

    while let Some(at) = rest.find('%') {
        read.push_str(&rest[..at]);
        read.push(u8::from_str_radix(&rest[at + 1..at + 3], 16).unwrap() as char);
        rest = &rest[at + 3..];
    }
    read.push_str(rest);

    assert_eq!(read, path);
}

#[test]
fn traversals_list_each_project_once() {
    let paths = ["/<MoonProject Include=/a.csproj", "b.csproj", "b.csproj"]
        .map(String::from)
        .to_vec();
    let xml = traversal_project_xml(&paths);

    assert_eq!(xml.matches("<MoonProject Include=").count(), 3);
    assert_eq!(traversal_project_xml(&[]).matches("<MoonProject Include=").count(), 0);
}
