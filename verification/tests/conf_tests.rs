use std::collections::BTreeMap;
use wp_log::conf::{print_stat_enabled, FileLogConf, LogConf, Output, PRINT_STAT};

#[test]
fn test_output_display() {
    assert_eq!(Output::Console.to_string(), "Console");
    assert_eq!(Output::File.to_string(), "File");
    assert_eq!(Output::Both.to_string(), "Both");
}

#[test]
fn test_log_conf_default() {
    let conf = LogConf::default();
    assert!(conf.level.contains("warn"));
    assert!(conf.level.contains("ctrl=info"));
    assert!(conf.level.contains("launch=info"));
    assert_eq!(conf.output, Output::File);
    assert!(conf.file.is_some());
    assert_eq!(conf.file.as_ref().unwrap().path, "./data/logs/");
    assert!(conf.levels.is_none());
}

#[test]
fn test_log_conf_from_str() {
    let conf: LogConf = "debug".parse().unwrap();
    assert_eq!(conf.level, "debug");
    assert_eq!(conf.output, Output::File);
    assert!(conf.file.is_some());
    assert_eq!(conf.file.as_ref().unwrap().path, "./logs");
    assert!(conf.levels.is_none());
}

#[test]
fn test_log_conf_log_to_console() {
    let conf = LogConf::log_to_console("info");
    assert_eq!(conf.level, "info");
    assert_eq!(conf.output, Output::Console);
    assert!(conf.file.is_none());
    assert!(conf.levels.is_none());
}

#[test]
fn test_log_conf_display_without_levels() {
    let conf = LogConf {
        level: "debug".into(),
        levels: None,
        output: Output::Console,
        file: Some(FileLogConf {
            path: "/tmp/logs".into(),
        }),
    };
    let display = conf.to_string();
    assert!(display.contains("level: debug"));
    assert!(display.contains("output: Console"));
    assert!(display.contains("/tmp/logs"));
}

#[test]
fn test_log_conf_display_with_levels() {
    let mut levels = BTreeMap::new();
    levels.insert("global".into(), "warn".into());
    levels.insert("ctrl".into(), "info".into());

    let conf = LogConf {
        level: "warn".into(),
        levels: Some(levels),
        output: Output::File,
        file: None,
    };
    let display = conf.to_string();
    assert!(display.contains("levels:"));
    assert!(display.contains("global"));
    assert!(display.contains("ctrl"));
    assert!(display.contains("output: File"));
}

#[test]
fn test_log_conf_with_setters() {
    let conf = LogConf::default().with_output(Output::Console);
    assert_eq!(conf.output, Output::Console);
}

#[test]
fn test_log_conf_getters() {
    let conf = LogConf::default();
    assert_eq!(conf.level(), &conf.level);
    assert_eq!(conf.output(), &conf.output);
    assert_eq!(conf.file(), &conf.file);
    assert_eq!(conf.levels(), &conf.levels);
}

#[test]
fn display_text_exact_without_levels() {
    let conf = LogConf {
        level: "debug".into(),
        levels: None,
        output: Output::Console,
        file: Some(FileLogConf {
            path: "/tmp/logs".into(),
        }),
    };
    assert_eq!(
        conf.to_string(),
        "level: debug\noutput: Console\npath: Some(\"/tmp/logs\")\n"
    );
}

#[test]
fn display_text_exact_with_levels_and_no_file() {
    let mut levels = BTreeMap::new();
    levels.insert("global".to_string(), "warn".to_string());
    levels.insert("ctrl".to_string(), "info".to_string());
    let conf = LogConf {
        level: "ignored".into(),
        levels: Some(levels),
        output: Output::Both,
        file: None,
    };
    assert_eq!(
        conf.to_string(),
        "levels: {\"ctrl\": \"info\", \"global\": \"warn\"}\noutput: Both\npath: None\n"
    );
}

#[test]
fn display_escapes_path() {
    let conf = LogConf {
        level: "info".into(),
        levels: None,
        output: Output::File,
        file: Some(FileLogConf {
            path: "a\"b".into(),
        }),
    };
    assert_eq!(
        conf.to_string(),
        "level: info\noutput: File\npath: Some(\"a\\\"b\")\n"
    );
}

#[test]
fn default_level_is_the_production_spec() {
    let conf = LogConf::default();
    assert_eq!(
        conf.level,
        "warn,ctrl=info,launch=info,source=info,sink=info,stat=info,runtime=warn,oml=warn,wpl=warn,klib=warn,orion_error=error,orion_sens=warn"
    );
}

#[test]
fn from_level_matches_parse() {
    let parsed: LogConf = "warn,ctrl=info".parse().unwrap();
    assert_eq!(parsed, LogConf::from_level("warn,ctrl=info"));
}

#[test]
fn with_output_keeps_other_fields() {
    let base = LogConf::log_to_console("trace");
    let conf = base.clone().with_output(Output::Both);
    assert_eq!(conf.output, Output::Both);
    assert_eq!(conf.level, base.level);
    assert_eq!(conf.file, base.file);
    assert_eq!(conf.levels, base.levels);
}

#[test]
fn print_stat_switch() {
    assert_eq!(PRINT_STAT, "PRINT_STAT");
    assert!(print_stat_enabled(Some("true")));
    assert!(!print_stat_enabled(Some("TRUE")));
    assert!(!print_stat_enabled(Some("true ")));
    assert!(!print_stat_enabled(Some("false")));
    assert!(!print_stat_enabled(None));
}

#[test]
fn display_of_levels_matches_std_debug() {
    let mut levels = BTreeMap::new();
    levels.insert("q\"uote".to_string(), "tab\there".to_string());
    levels.insert("émoji🙂".to_string(), "new\nline".to_string());
    levels.insert("a".to_string(), "b".to_string());
    let expected = format!("levels: {:?}\n", levels);
    let conf = LogConf {
        level: "info".into(),
        levels: Some(levels),
        output: Output::File,
        file: None,
    };
    assert!(conf.to_string().starts_with(&expected));
    let empty: BTreeMap<String, String> = BTreeMap::new();
    let conf = LogConf {
        level: "info".into(),
        levels: Some(empty),
        output: Output::File,
        file: None,
    };
    assert!(conf.to_string().starts_with("levels: {}\n"));
}
