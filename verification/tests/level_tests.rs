use wp_log::level::{parse_level_spec, parse_lv, ConfError, LevelFilter};

#[test]
fn test_parse_lv_all_levels() {
    assert_eq!(parse_lv("off").unwrap(), LevelFilter::Off);
    assert_eq!(parse_lv("error").unwrap(), LevelFilter::Error);
    assert_eq!(parse_lv("warn").unwrap(), LevelFilter::Warn);
    assert_eq!(parse_lv("info").unwrap(), LevelFilter::Info);
    assert_eq!(parse_lv("debug").unwrap(), LevelFilter::Debug);
    assert_eq!(parse_lv("trace").unwrap(), LevelFilter::Trace);
}

#[test]
fn test_parse_lv_case_insensitive() {
    assert_eq!(parse_lv("DEBUG").unwrap(), LevelFilter::Debug);
    assert_eq!(parse_lv("Info").unwrap(), LevelFilter::Info);
    assert_eq!(parse_lv("WARN").unwrap(), LevelFilter::Warn);
    assert_eq!(parse_lv("ErRoR").unwrap(), LevelFilter::Error);
}

#[test]
fn test_parse_lv_invalid() {
    assert!(parse_lv("invalid").is_err());
    assert!(parse_lv("").is_err());
    assert!(parse_lv("warning").is_err());
}

#[test]
fn test_parse_level_spec_single_level() {
    let (root, targets) = parse_level_spec("info").unwrap();
    assert_eq!(root, LevelFilter::Info);
    assert!(targets.is_empty());
}

#[test]
fn test_parse_level_spec_with_targets() {
    let (root, targets) = parse_level_spec("warn,ctrl=info,source=debug").unwrap();
    assert_eq!(root, LevelFilter::Warn);
    assert_eq!(targets.len(), 2);
    assert!(
        targets
            .iter()
            .any(|(k, v)| k == "ctrl" && *v == LevelFilter::Info)
    );
    assert!(
        targets
            .iter()
            .any(|(k, v)| k == "source" && *v == LevelFilter::Debug)
    );
}

#[test]
fn test_parse_level_spec_with_whitespace() {
    let (root, targets) = parse_level_spec("warn , ctrl = info , source = debug").unwrap();
    assert_eq!(root, LevelFilter::Warn);
    assert_eq!(targets.len(), 2);
}

#[test]
fn test_parse_level_spec_empty_parts() {
    let (root, targets) = parse_level_spec("warn,,ctrl=info,").unwrap();
    assert_eq!(root, LevelFilter::Warn);
    assert_eq!(targets.len(), 1);
}

#[test]
fn test_parse_level_spec_default_like() {
    let spec = "warn,ctrl=info,launch=info,source=info,sink=info,stat=info,runtime=warn";
    let (root, targets) = parse_level_spec(spec).unwrap();
    assert_eq!(root, LevelFilter::Warn);
    assert_eq!(targets.len(), 6);
}

#[test]
fn unknown_level_error_carries_trimmed_name() {
    assert_eq!(
        parse_lv("verbose"),
        Err(ConfError::UnknownLogLevel("verbose".to_string()))
    );
    assert_eq!(
        parse_level_spec("warn, ctrl = loud ,data=info"),
        Err(ConfError::UnknownLogLevel("loud".to_string()))
    );
    assert_eq!(
        parse_level_spec("  nope  "),
        Err(ConfError::UnknownLogLevel("nope".to_string()))
    );
}

#[test]
fn first_unknown_level_is_reported() {
    assert_eq!(
        parse_level_spec("bad1,ctrl=bad2"),
        Err(ConfError::UnknownLogLevel("bad1".to_string()))
    );
}

#[test]
fn value_is_split_at_first_equals() {
    assert_eq!(
        parse_level_spec("a=b=info"),
        Err(ConfError::UnknownLogLevel("b=info".to_string()))
    );
}

#[test]
fn empty_spec_gives_info_root() {
    let (root, targets) = parse_level_spec("").unwrap();
    assert_eq!(root, LevelFilter::Info);
    assert!(targets.is_empty());
    let (root, targets) = parse_level_spec(" , ,\t,").unwrap();
    assert_eq!(root, LevelFilter::Info);
    assert!(targets.is_empty());
}

#[test]
fn later_root_overrides_and_targets_keep_order() {
    let (root, targets) = parse_level_spec("debug,b=warn,a=TRACE,error").unwrap();
    assert_eq!(root, LevelFilter::Error);
    assert_eq!(
        targets,
        vec![
            ("b".to_string(), LevelFilter::Warn),
            ("a".to_string(), LevelFilter::Trace)
        ]
    );
}

#[test]
fn concatenation_continues_parsing() {
    let (r1, t1) = parse_level_spec("warn,x=info").unwrap();
    let (r2, t2) = parse_level_spec("warn,x=info,y=off").unwrap();
    assert_eq!(r1, r2);
    assert_eq!(t2[..1], t1[..]);
    assert_eq!(t2[1], ("y".to_string(), LevelFilter::Off));
}

#[test]
fn unicode_whitespace_is_trimmed() {
    let (root, targets) = parse_level_spec("\u{3000}warn\u{a0},\tctrl\u{2003}=\u{85}debug\n").unwrap();
    assert_eq!(root, LevelFilter::Warn);
    assert_eq!(targets, vec![("ctrl".to_string(), LevelFilter::Debug)]);
}

#[test]
fn empty_target_name_is_kept() {
    let (_, targets) = parse_level_spec("=info").unwrap();
    assert_eq!(targets, vec![(String::new(), LevelFilter::Info)]);
}

#[test]
fn non_ascii_letters_are_not_folded() {
    assert!(parse_lv("İnfo").is_err());
    assert!(parse_lv("ınfo").is_err());
}

#[test]
fn joining_two_specs_concatenates_targets() {
    let (ra, ta) = parse_level_spec("debug,a=info").unwrap();
    let (_, tb) = parse_level_spec("b=warn").unwrap();
    let (r, t) = parse_level_spec("debug,a=info,b=warn").unwrap();
    assert_eq!(r, ra);
    let mut both = ta.clone();
    both.extend(tb.clone());
    assert_eq!(t, both);
    let (rb, _) = parse_level_spec("trace,c=off").unwrap();
    let (r2, _) = parse_level_spec("debug,a=info,trace,c=off").unwrap();
    assert_eq!(r2, rb);
    assert!(parse_level_spec("debug,a=oops").is_err());
    assert!(parse_level_spec("oops,a=info").is_err());
}
