use mkdirr::{ancestor_prefixes, creation_plan, CreateAction};

#[test]
fn prefixes_of_a_three_level_path() {
    let p = ancestor_prefixes("a/b/c");
    assert_eq!(p, vec!["a".to_string(), "a/b".to_string(), "a/b/c".to_string()]);
}

#[test]
fn prefixes_of_a_single_component() {
    assert_eq!(ancestor_prefixes("tmp"), vec!["tmp".to_string()]);
}

#[test]
fn prefixes_of_an_absolute_path() {
    assert_eq!(
        ancestor_prefixes("/a/b"),
        vec!["/a".to_string(), "/a/b".to_string()]
    );
}

#[test]
fn verbose_reports_all_three_levels_when_nothing_exists() {
    let exists = vec![false, false, false];
    let plan = creation_plan("a/b/c", true, true, &exists);
    assert_eq!(plan.action, CreateAction::CreateAll);
    assert_eq!(
        plan.report,
        vec!["a".to_string(), "a/b".to_string(), "a/b/c".to_string()]
    );
}

#[test]
fn verbose_reports_only_the_missing_prefixes() {
    // `a` already exists: only `a/b` and `a/b/c` are new.
    let exists = vec![true, false, false];
    let plan = creation_plan("a/b/c", true, true, &exists);
    assert_eq!(plan.action, CreateAction::CreateAll);
    assert_eq!(plan.report, vec!["a/b".to_string(), "a/b/c".to_string()]);
}

#[test]
fn success_with_parents_flag_when_dir_exists() {
    // With ancestors asked for, an existing target is a no-op success
    // with nothing to report, however often it is repeated.
    let exists = vec![true, true];
    for _ in 0..2 {
        let plan = creation_plan("a/b", true, true, &exists);
        assert_eq!(plan.action, CreateAction::Nothing);
        assert!(plan.report.is_empty());
    }
}

#[test]
fn change_mode_if_directory_exists_and_parents_flag_provided() {
    // The original scenario: `-m=w -p` on an existing directory leaves
    // creation a no-op and sets the write-only permission value.
    let exists = vec![true];
    let plan = creation_plan("a", true, false, &exists);
    assert_eq!(plan.action, CreateAction::Nothing);
    assert!(plan.report.is_empty());
    let m = mkdirr::Mode::from_str("w").unwrap();
    assert_eq!(m.bits(), 0o222);
}

#[test]
fn without_parents_the_target_alone_is_attempted() {
    // Whatever already exists, the plan is a plain single creation; an
    // existing target or a missing parent then fails in the filesystem.
    let exists = vec![true, true];
    let plan = creation_plan("a/b", false, false, &exists);
    assert_eq!(plan.action, CreateAction::CreateSingle);
    assert!(plan.report.is_empty());
}

#[test]
fn without_parents_verbose_reports_the_target() {
    let exists = vec![false];
    let plan = creation_plan("fresh", false, true, &exists);
    assert_eq!(plan.action, CreateAction::CreateSingle);
    assert_eq!(plan.report, vec!["fresh".to_string()]);
}

#[test]
fn quiet_plans_report_nothing() {
    let exists = vec![false, false];
    let plan = creation_plan("a/b", true, false, &exists);
    assert_eq!(plan.action, CreateAction::CreateAll);
    assert!(plan.report.is_empty());
}

#[test]
fn repeated_separators_do_not_make_empty_prefixes() {
    assert_eq!(
        ancestor_prefixes("a//b"),
        vec!["a".to_string(), "a//b".to_string()]
    );
}
