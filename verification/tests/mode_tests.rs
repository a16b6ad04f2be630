use mkdirr::{Mode, ModeError};

fn mode_of(expr: &str) -> Mode {
    match Mode::from_str(expr) {
        Ok(m) => m,
        Err(e) => panic!("expected {:?} to parse, got {:?}", expr, e),
    }
}

fn bits_of(expr: &str) -> u32 {
    mode_of(expr).bits()
}

#[test]
fn test_mode_all_rwx() {
    assert_eq!(bits_of("rwx"), 0o777);
}

#[test]
fn test_mode_user_rwx_group_rx_other_r() {
    assert_eq!(bits_of("u=rwx,g=rx,o=r"), 0o754);
}

#[test]
fn test_mode_user_rw_group_w_other_x() {
    assert_eq!(bits_of("u=rw,g=w,o=x"), 0o621);
}

#[test]
fn test_mode_only_user_rwx() {
    assert_eq!(bits_of("u=rwx"), 0o700);
}

#[test]
fn test_mode_only_group_rx() {
    assert_eq!(bits_of("g=rx"), 0o050);
}

#[test]
fn test_mode_only_other_r() {
    assert_eq!(bits_of("o=r"), 0o004);
}

#[test]
fn success_with_mode_option() {
    let m = mode_of("r");
    assert!(m.user_read && m.group_read && m.other_read);
    assert!(!m.user_write && !m.user_execute);
    assert_eq!(m.bits(), 0o444);
}

#[test]
fn fails_when_mode_option_is_empty() {
    assert_eq!(Mode::from_str(""), Err(ModeError::Empty));
}

#[test]
fn fails_when_mode_is_not_valid() {
    assert_eq!(
        Mode::from_str("c"),
        Err(ModeError::InvalidShorthand { expression: "c".to_string() })
    );
}

#[test]
fn shorthand_sets_all_three_classes_alike() {
    for expr in ["r", "w", "x", "rw", "rx", "wx", "rwx", "xrw", "wr"] {
        let m = mode_of(expr);
        let r = expr.contains('r');
        let w = expr.contains('w');
        let x = expr.contains('x');
        assert_eq!(m.user_read, r);
        assert_eq!(m.user_write, w);
        assert_eq!(m.user_execute, x);
        assert_eq!(m.group_read, r);
        assert_eq!(m.group_write, w);
        assert_eq!(m.group_execute, x);
        assert_eq!(m.other_read, r);
        assert_eq!(m.other_write, w);
        assert_eq!(m.other_execute, x);
    }
}

#[test]
fn shorthand_repeats_are_harmless() {
    assert_eq!(mode_of("rrr"), mode_of("r"));
    assert_eq!(mode_of("rwxrwx"), mode_of("rwx"));
}

#[test]
fn symbolic_sets_exactly_the_named_flags() {
    let m = mode_of("g=rx");
    assert!(m.group_read && m.group_execute);
    assert!(!m.user_read && !m.user_write && !m.user_execute);
    assert!(!m.group_write);
    assert!(!m.other_read && !m.other_write && !m.other_execute);
}

#[test]
fn symbolic_accumulation_is_order_independent() {
    assert_eq!(mode_of("u=r,u=w"), mode_of("u=rw"));
    assert_eq!(mode_of("u=r,g=w,o=x"), mode_of("o=x,u=r,g=w"));
    assert_eq!(mode_of("u=rw,u=r"), mode_of("u=r,u=w,u=r"));
}

#[test]
fn symbolic_classes_may_repeat() {
    let m = mode_of("g=r,g=x");
    assert_eq!(m, mode_of("g=rx"));
}

#[test]
fn symbolic_empty_perms_set_nothing() {
    assert_eq!(mode_of("u=").bits(), 0o000);
    assert_eq!(mode_of("u=,g=rx").bits(), 0o050);
}

#[test]
fn case_is_ignored() {
    assert_eq!(bits_of("RWX"), 0o777);
    assert_eq!(bits_of("U=Rwx,G=rX,o=R"), 0o754);
}

#[test]
fn roundtrip_examples() {
    assert_eq!(bits_of("u=rwx,g=rx,o=r"), 0o754);
    assert_eq!(bits_of("rwx"), 0o777);
    assert_eq!(bits_of("g=rx"), 0o050);
    assert_eq!(bits_of("o=r"), 0o004);
    assert_eq!(bits_of("w"), 0o222);
}

#[test]
fn segment_without_separator_is_rejected() {
    assert_eq!(
        Mode::from_str("u=r,w"),
        Err(ModeError::MissingSeparator { segment: "w".to_string() })
    );
}

#[test]
fn mixed_shorthand_and_symbolic_uses_the_symbolic_grammar() {
    // `=` anywhere selects the comma-separated grammar for the whole
    // expression, so the bare part fails as a segment without `=`.
    assert_eq!(
        Mode::from_str("rwx,u=r"),
        Err(ModeError::MissingSeparator { segment: "rwx".to_string() })
    );
}

#[test]
fn bad_permission_character_is_rejected() {
    assert_eq!(
        Mode::from_str("u=rq"),
        Err(ModeError::InvalidPermissions { segment: "u=rq".to_string() })
    );
}

#[test]
fn unknown_class_is_rejected() {
    assert_eq!(
        Mode::from_str("z=rw"),
        Err(ModeError::UnknownClass { class: "z".to_string(), perm: 'r' })
    );
    assert_eq!(
        Mode::from_str("=x"),
        Err(ModeError::UnknownClass { class: "".to_string(), perm: 'x' })
    );
}

#[test]
fn unknown_class_with_empty_perms_sets_nothing() {
    // A class is only checked against its permission characters, so an
    // unknown class with nothing after `=` slips through as a no-op.
    assert_eq!(mode_of("z=").bits(), 0o000);
}

#[test]
fn first_bad_segment_wins() {
    assert_eq!(
        Mode::from_str("u=rq,w"),
        Err(ModeError::InvalidPermissions { segment: "u=rq".to_string() })
    );
    assert_eq!(
        Mode::from_str("w,u=rq"),
        Err(ModeError::MissingSeparator { segment: "w".to_string() })
    );
}

#[test]
fn shorthand_error_echoes_the_original_spelling() {
    assert_eq!(
        Mode::from_str("C"),
        Err(ModeError::InvalidShorthand { expression: "C".to_string() })
    );
}

#[test]
fn default_mode_has_no_flags() {
    let m = Mode::default();
    assert_eq!(m.bits(), 0o000);
}
