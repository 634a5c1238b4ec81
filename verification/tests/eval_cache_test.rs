use dotnet_toolchain::discovery::{DirEntry, DirListing, DirPath, EntryKind};
use dotnet_toolchain::eval_cache::{
    content_digest, eval_cache_digest, eval_cache_file, eval_cache_sources, current_entry,
    read_eval_cache, write_eval_cache,
};
use dotnet_toolchain::str_map::StrMap;

fn workspace() -> DirPath {
    DirPath {
        absolute: true,
        parts: vec!["workspace".into()],
    }
}

fn packages(entries: &[(&str, &str)]) -> StrMap<String> {
    let mut map = StrMap::new();

    for (name, version) in entries {
        map.insert(name.to_string(), version.to_string());
    }

    map
}

fn contents(texts: &[&str]) -> Vec<String> {
    texts.iter().map(|text| text.to_string()).collect()
}

#[test]
fn digests_are_fnv1a_in_hex() {
    assert_eq!(content_digest(""), "cbf29ce484222325");
    assert_eq!(content_digest("a"), "af63dc4c8601ec8c");
    assert_eq!(content_digest("foobar"), "85944171f73967e8");
    // UTF-8 bytes count, not characters.
    let mut hash: u64 = 0xcbf2_9ce4_8422_2325;
    for byte in "é".as_bytes() {
        hash ^= *byte as u64;
        hash = hash.wrapping_mul(0x0000_0100_0000_01b3);
    }
    assert_eq!(content_digest("é"), format!("{hash:016x}"));
}

#[test]
fn one_character_more_is_one_step_of_the_hash() {
    for (text, c) in [("", 'a'), ("foo", 'b'), ("é", '\u{7f}'), ("ab", '\0')] {
        let before = u64::from_str_radix(&content_digest(text), 16).unwrap();
        let after = u64::from_str_radix(&content_digest(&format!("{text}{c}")), 16).unwrap();

        assert_eq!(after, (before ^ (c as u64)).wrapping_mul(0x0000_0100_0000_01b3));
    }
}

#[test]
fn digests_cover_all_contents_in_order() {
    assert_eq!(
        eval_cache_digest(&contents(&["foo", "", "a longer é"])),
        content_digest("3:foo0:10:a longer é")
    );
    assert_ne!(
        eval_cache_digest(&contents(&["bar", "foo"])),
        eval_cache_digest(&contents(&["foo", "bar"]))
    );
    assert_eq!(eval_cache_digest(&[]), content_digest(""));
}

#[test]
fn text_that_moves_between_files_makes_an_entry_stale() {
    let set = packages(&[("A", "1.0.0")]);
    let written = write_eval_cache(&contents(&["ab", "c"]), &set).unwrap();

    assert_eq!(read_eval_cache(&written, &contents(&["ab", "c"])), Some(set));
    assert_eq!(read_eval_cache(&written, &contents(&["a", "bc"])), None);
    assert_eq!(read_eval_cache(&written, &contents(&["abc"])), None);
    assert_eq!(read_eval_cache(&written, &contents(&["ab", "c", ""])), None);
    assert_eq!(read_eval_cache(&written, &contents(&["2:ab", "c"])), None);
}

#[test]
fn cache_files_have_safe_names() {
    assert_eq!(
        eval_cache_file(&workspace(), "apps/web@1.2_x-Y").parts,
        vec![
            "workspace",
            ".moon",
            "cache",
            "dotnet-toolchain",
            "eval",
            "apps_web_1.2_x-Y.json"
        ]
    );
    assert_eq!(
        eval_cache_file(&workspace(), "../é\\").parts.last().unwrap(),
        "..___.json"
    );
}

#[test]
fn sources_are_project_files_then_configs_upwards() {
    let listing = |path: &[&str], files: &[&str]| DirListing {
        path: DirPath {
            absolute: true,
            parts: path.iter().map(|part| part.to_string()).collect(),
        },
        entries: files
            .iter()
            .map(|name| DirEntry {
                name: name.to_string(),
                kind: EntryKind::File,
            })
            .collect(),
    };

    let levels = vec![
        listing(&["workspace", "app"], &["nuget.config", "b.csproj", "a.csproj"]),
        listing(&["workspace"], &["global.json", "Other.csproj", "Directory.Build.props"]),
    ];
    let sources = eval_cache_sources(&levels)
        .into_iter()
        .map(|path| path.parts.join("/"))
        .collect::<Vec<_>>();

    assert_eq!(
        sources,
        vec![
            "workspace/app/a.csproj",
            "workspace/app/b.csproj",
            "workspace/app/nuget.config",
            "workspace/Directory.Build.props",
            "workspace/global.json",
        ]
    );
    assert!(eval_cache_sources(&[]).is_empty());
}

#[test]
fn what_is_written_is_read_back_until_a_file_changes() {
    let set = packages(&[("Newtonsoft.Json", "13.0.3"), ("odd \"name\"\n", "*")]);
    let files = contents(&["<Project />", "{}"]);
    let written = write_eval_cache(&files, &set).unwrap();

    assert_eq!(
        written,
        format!(
            r#"{{"digest":"{}","packages":{{"Newtonsoft.Json":"13.0.3","odd \"name\"\n":"*"}}}}"#,
            eval_cache_digest(&files)
        )
    );
    assert_eq!(read_eval_cache(&written, &files), Some(set));
    assert_eq!(
        read_eval_cache(&written, &contents(&["<Project></Project>", "{}"])),
        None
    );
}

#[test]
fn torn_or_foreign_cache_files_are_not_used() {
    let files = contents(&["x"]);
    let digest = eval_cache_digest(&files);

    assert_eq!(read_eval_cache("{\"digest\":", &files), None);
    assert_eq!(read_eval_cache("{}", &files), None);
    assert_eq!(
        read_eval_cache(&format!("{{\"digest\":\"{digest}\"}}"), &files),
        None
    );
    assert_eq!(
        read_eval_cache(
            &format!("{{\"digest\":\"{digest}\",\"packages\":{{\"A\":1}}}}"),
            &files
        ),
        None
    );
    assert_eq!(current_entry(None, &digest), None);
    assert_eq!(current_entry(Some(("other".into(), StrMap::new())), &digest), None);
    assert_eq!(
        current_entry(Some((digest.clone(), packages(&[("A", "1")]))), &digest),
        Some(packages(&[("A", "1")]))
    );
    // Other members are not looked into, and neither field is given twice.
    assert_eq!(
        read_eval_cache(
            &format!("{{\"x\":1e999,\"packages\":{{\"A\":\"1\"}},\"digest\":\"{digest}\"}}"),
            &files
        ),
        Some(packages(&[("A", "1")]))
    );
    assert_eq!(
        read_eval_cache(
            &format!("{{\"digest\":\"{digest}\",\"digest\":\"{digest}\",\"packages\":{{}}}}"),
            &files
        ),
        None
    );
    assert_eq!(
        read_eval_cache(&format!("[\"{digest}\",{{\"A\":\"1\"}}]"), &files),
        Some(packages(&[("A", "1")]))
    );
    assert_eq!(
        read_eval_cache(&format!("[\"{digest}\",{{\"A\":\"1\"}},0]"), &files),
        None
    );
    assert_eq!(read_eval_cache("[\"other\",{}]", &files), None);
}
