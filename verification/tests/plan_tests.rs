use wp_log::conf::{FileLogConf, LogConf, Output};
use wp_log::level::{ConfError, LevelFilter};
use wp_log::plan::{log_file_in, log_plan, path_push, resolve_log_file, ARCHIVE_COUNT, TRIGGER_SIZE};

fn conf(level: &str, output: Output, dir: Option<&str>) -> LogConf {
    LogConf {
        level: level.to_string(),
        levels: None,
        output,
        file: dir.map(|d| FileLogConf { path: d.to_string() }),
    }
}

#[test]
fn path_push_joins_with_one_slash() {
    assert_eq!(path_push("./logs", "app.log"), "./logs/app.log");
    assert_eq!(path_push("./data/logs/", "app.log"), "./data/logs/app.log");
    assert_eq!(path_push("", "app.log"), "app.log");
    assert_eq!(path_push("/var", "/etc/x.log"), "/etc/x.log");
}

#[test]
fn log_file_in_names_file_after_stem() {
    assert_eq!(log_file_in("/var/log/app", "server"), "/var/log/app/server.log");
    assert_eq!(log_file_in("dir/", ""), "dir/.log");
}

#[test]
fn resolve_log_file_uses_program_stem() {
    let c = conf("info", Output::File, Some("/var/log/app"));
    assert_eq!(
        resolve_log_file(&c, Some("/usr/local/bin/server")),
        "/var/log/app/server.log"
    );
    assert_eq!(resolve_log_file(&c, Some("tool.exe")), "/var/log/app/tool.log");
    assert_eq!(resolve_log_file(&c, Some("archive.tar.gz")), "/var/log/app/archive.tar.log");
    assert_eq!(resolve_log_file(&c, Some(".hidden")), "/var/log/app/.hidden.log");
}

#[test]
fn resolve_log_file_falls_back_to_app_and_logs_dir() {
    let c = conf("info", Output::File, None);
    assert_eq!(resolve_log_file(&c, None), "./logs/app.log");
    assert_eq!(resolve_log_file(&c, Some("/")), "./logs/app.log");
    assert_eq!(resolve_log_file(&c, Some("..")), "./logs/app.log");
}

#[test]
fn plan_for_console_has_no_file() {
    let p = log_plan(&LogConf::log_to_console("debug"), Some("prog")).unwrap();
    assert!(p.console);
    assert!(p.file.is_none());
    assert_eq!(p.root_level, LevelFilter::Debug);
    assert!(p.targets.is_empty());
    assert_eq!(p.encoder_pattern, "{d(%Y-%m-%d %H:%M:%S.%f)} [{l:5}] [{t:7}] {m}{n}");
}

#[test]
fn plan_for_file_rolls_archives() {
    let c = conf("warn,ctrl=info", Output::File, Some("/tmp/logs"));
    let p = log_plan(&c, Some("/opt/bin/svc")).unwrap();
    assert!(!p.console);
    let f = p.file.unwrap();
    assert_eq!(f.path, "/tmp/logs/svc.log");
    assert_eq!(f.archive_pattern, "/tmp/logs/svc.log.{}.gz");
    assert_eq!(f.archive_count, 10);
    assert_eq!(ARCHIVE_COUNT, 10);
    assert_eq!(f.trigger_size, 10 * 1024 * 1024);
    assert_eq!(TRIGGER_SIZE, 10 * 1024 * 1024);
    assert_eq!(p.root_level, LevelFilter::Warn);
    assert_eq!(p.targets, vec![("ctrl".to_string(), LevelFilter::Info)]);
}

#[test]
fn plan_for_both_has_console_and_file() {
    let c = conf("info", Output::Both, None);
    let p = log_plan(&c, None).unwrap();
    assert!(p.console);
    assert_eq!(p.file.unwrap().path, "./logs/app.log");
}

#[test]
fn plan_refuses_unknown_level() {
    let c = conf("warn,ctrl=chatty", Output::Both, None);
    match log_plan(&c, None) {
        Err(e) => assert_eq!(e, ConfError::UnknownLogLevel("chatty".to_string())),
        Ok(_) => panic!("an unknown level must be refused"),
    }
}

#[test]
fn default_conf_plans_cleanly() {
    let p = log_plan(&LogConf::default(), Some("wparse")).unwrap();
    assert_eq!(p.root_level, LevelFilter::Warn);
    assert_eq!(p.targets.len(), 11);
    assert_eq!(p.targets[10], ("orion_sens".to_string(), LevelFilter::Warn));
    assert_eq!(p.file.unwrap().path, "./data/logs/wparse.log");
}

fn with_levels(level: &str, pairs: &[(&str, &str)], output: Output) -> LogConf {
    let mut m = std::collections::BTreeMap::new();
    for (k, v) in pairs {
        m.insert(k.to_string(), v.to_string());
    }
    LogConf {
        level: level.to_string(),
        levels: Some(m),
        output,
        file: Some(FileLogConf {
            path: "./data/logs".to_string(),
        }),
    }
}

#[test]
fn structured_levels_are_per_target_overrides() {
    let c = with_levels("warn", &[("ctrl", "info"), ("data", "debug")], Output::Both);
    let p = log_plan(&c, Some("svc")).unwrap();
    assert_eq!(p.root_level, LevelFilter::Warn);
    assert_eq!(
        p.targets,
        vec![
            ("ctrl".to_string(), LevelFilter::Info),
            ("data".to_string(), LevelFilter::Debug)
        ]
    );
    assert!(p.console);
    assert_eq!(p.file.unwrap().path, "./data/logs/svc.log");
}

#[test]
fn structured_levels_win_over_the_level_spec() {
    let c = with_levels("warn,ctrl=debug,x=info", &[("ctrl", "error")], Output::Console);
    let p = log_plan(&c, None).unwrap();
    assert_eq!(p.root_level, LevelFilter::Warn);
    assert_eq!(
        p.targets,
        vec![
            ("x".to_string(), LevelFilter::Info),
            ("ctrl".to_string(), LevelFilter::Error)
        ]
    );
}

#[test]
fn structured_global_sets_root() {
    let c = with_levels("warn", &[("global", "TRACE"), ("ctrl", "info")], Output::Console);
    let p = log_plan(&c, None).unwrap();
    assert_eq!(p.root_level, LevelFilter::Trace);
    assert_eq!(p.targets, vec![("ctrl".to_string(), LevelFilter::Info)]);
}

#[test]
fn structured_unknown_level_is_skipped() {
    let c = with_levels(
        "warn,b=debug",
        &[("a", "info"), ("b", "loud"), ("global", "noisy")],
        Output::Console,
    );
    let p = log_plan(&c, None).unwrap();
    assert_eq!(p.root_level, LevelFilter::Warn);
    assert_eq!(
        p.targets,
        vec![
            ("b".to_string(), LevelFilter::Debug),
            ("a".to_string(), LevelFilter::Info)
        ]
    );
}

#[test]
fn level_spec_error_comes_before_structured_levels() {
    let c = with_levels("bad", &[("ctrl", "info")], Output::Console);
    match log_plan(&c, None) {
        Err(e) => assert_eq!(e, ConfError::UnknownLogLevel("bad".to_string())),
        Ok(_) => panic!("an unknown level must be refused"),
    }
}

#[test]
fn empty_structured_levels_change_nothing() {
    let c = with_levels("debug,a=info", &[], Output::Console);
    let p = log_plan(&c, None).unwrap();
    assert_eq!(p.root_level, LevelFilter::Debug);
    assert_eq!(p.targets, vec![("a".to_string(), LevelFilter::Info)]);
}

#[test]
fn structured_levels_come_in_key_order() {
    let c = with_levels("info", &[("zeta", "warn"), ("alpha", "debug"), ("Mid", "off")], Output::Console);
    let p = log_plan(&c, None).unwrap();
    assert_eq!(
        p.targets,
        vec![
            ("Mid".to_string(), LevelFilter::Off),
            ("alpha".to_string(), LevelFilter::Debug),
            ("zeta".to_string(), LevelFilter::Warn)
        ]
    );
}
