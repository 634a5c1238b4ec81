use dotnet_toolchain::config::{DotnetToolchainConfig, InferTasksSetting, INFERABLE_TASKS};

#[test]
fn config_defaults_apply() {
    let config = DotnetToolchainConfig::default();

    assert!(config.infer_dependencies);
    assert_eq!(config.infer_tasks, InferTasksSetting::Enabled(true));
    assert!(config.infer_tasks.any_enabled());
    assert!(config.restore_args.is_empty());
    assert!(config.dotnet_root.is_none());
}

#[test]
fn infer_tasks_accepts_bool_and_list() {
    let setting = InferTasksSetting::Enabled(false);
    assert!(!setting.any_enabled());
    assert!(!setting.includes("build"));

    let setting = InferTasksSetting::Only(vec!["build".into(), "Test".into()]);
    assert!(setting.any_enabled());
    assert!(setting.includes("build"));
    assert!(setting.includes("test"));
    assert!(!setting.includes("run"));
    assert!(!setting.includes("publish"));

    let setting = InferTasksSetting::Only(vec![]);
    assert!(!setting.any_enabled());
}

#[test]
fn a_disabled_setting_selects_no_task() {
    for task in INFERABLE_TASKS {
        assert!(!InferTasksSetting::Enabled(false).includes(task));
        assert!(!InferTasksSetting::Only(vec![]).includes(task));
        assert!(InferTasksSetting::default().includes(task));
    }
}
