use pinnaclesort::config::{
    drop_repeats, holds, join, ConfigError, ScanConfiguration, DEFAULT_TIME_LIMIT_DAYS,
    MAX_TIME_LIMIT_DAYS,
};
use pinnaclesort::candidate::ScanCandidate;
use pinnaclesort::home::{
    display_roots, holding_directory, home_directory, scan_directories, tree_home,
};
use pinnaclesort::rebuild::rebuild_tree;

fn strings(list: &[&str]) -> Vec<String> {
    list.iter().map(|s| s.to_string()).collect()
}

#[test]
fn a_new_configuration_has_the_usual_settings() {
    let config = ScanConfiguration::new();
    assert_eq!(config.time_limit_days, 14);
    assert_eq!(DEFAULT_TIME_LIMIT_DAYS, 14);
    assert!(config.downloads_enabled);
    assert!(config.documents_enabled);
    assert!(config.desktop_enabled);
    assert!(config.custom_directories.is_empty());
    assert!(config.smart_filter_enabled);
    assert_eq!(config.threshold_seconds(), 1_209_600);
}

#[test]
fn the_threshold_is_at_least_one_day() {
    let mut config = ScanConfiguration::new();
    assert_eq!(config.set_time_limit(0), Err(ConfigError::TimeLimitOutOfRange));
    assert_eq!(config.time_limit_days, 14);
    assert_eq!(config.set_time_limit(1), Ok(()));
    assert_eq!(config.threshold_seconds(), 86_400);
    assert_eq!(config.set_time_limit(365), Ok(()));
    assert_eq!(config.threshold_seconds(), 31_536_000);
}

#[test]
fn the_threshold_must_fit_in_seconds() {
    let mut config = ScanConfiguration::new();
    assert_eq!(config.set_time_limit(MAX_TIME_LIMIT_DAYS + 1), Err(ConfigError::TimeLimitOutOfRange));
    assert_eq!(config.set_time_limit(u64::MAX), Err(ConfigError::TimeLimitOutOfRange));
    assert_eq!(config.time_limit_days, 14);
    assert_eq!(config.set_time_limit(MAX_TIME_LIMIT_DAYS), Ok(()));
    assert_eq!(config.threshold_seconds(), MAX_TIME_LIMIT_DAYS * 86_400);
    assert_eq!(MAX_TIME_LIMIT_DAYS, u64::MAX / 86_400);
}

#[test]
fn an_empty_custom_directory_is_refused() {
    let mut config = ScanConfiguration::new();
    assert_eq!(config.add_custom_directory(String::new()), Err(ConfigError::EmptyDirectory));
    assert!(config.custom_directories.is_empty());
    assert_eq!(config.add_custom_directory("/data".to_string()), Ok(()));
    assert_eq!(config.add_custom_directory("/more".to_string()), Ok(()));
    assert_eq!(config.custom_directories, strings(&["/data", "/more"]));
}

#[test]
fn a_custom_directory_is_removed_by_position() {
    let mut config = ScanConfiguration::new();
    for dir in ["/a", "/b", "/c"] {
        config.add_custom_directory(dir.to_string()).unwrap();
    }
    assert_eq!(config.remove_custom_directory(3), Err(ConfigError::NoSuchDirectory));
    assert_eq!(config.remove_custom_directory(1), Ok("/b".to_string()));
    assert_eq!(config.custom_directories, strings(&["/a", "/c"]));
    assert_eq!(config.remove_custom_directory(0), Ok("/a".to_string()));
    assert_eq!(config.remove_custom_directory(0), Ok("/c".to_string()));
    assert_eq!(config.remove_custom_directory(0), Err(ConfigError::NoSuchDirectory));
}

#[test]
fn directories_are_the_enabled_folders_then_the_custom_ones() {
    let mut config = ScanConfiguration::new();
    config.add_custom_directory("/data".to_string()).unwrap();
    assert_eq!(
        config.directories("/Users/ann/"),
        strings(&["/Users/ann/Downloads", "/Users/ann/Documents", "/Users/ann/Desktop", "/data"])
    );
    config.documents_enabled = false;
    assert_eq!(
        config.directories("/Users/ann/"),
        strings(&["/Users/ann/Downloads", "/Users/ann/Desktop", "/data"])
    );
    config.downloads_enabled = false;
    config.desktop_enabled = false;
    assert_eq!(config.directories("/Users/ann/"), strings(&["/data"]));
}

#[test]
fn each_directory_is_searched_once() {
    let mut config = ScanConfiguration::new();
    for dir in ["/data", "/Users/ann/Desktop", "/data", "/x", "/Users/ann/Downloads", "/x"] {
        config.add_custom_directory(dir.to_string()).unwrap();
    }
    assert_eq!(
        config.directories("/Users/ann/"),
        strings(&["/Users/ann/Downloads", "/Users/ann/Documents", "/Users/ann/Desktop", "/data", "/x"])
    );
}

#[test]
fn nothing_enabled_means_nothing_to_search() {
    let mut config = ScanConfiguration::new();
    config.downloads_enabled = false;
    config.documents_enabled = false;
    config.desktop_enabled = false;
    assert_eq!(config.directories("/Users/ann/"), Vec::<String>::new());
}

#[test]
fn repeats_are_dropped_and_the_first_stays() {
    assert_eq!(drop_repeats(strings(&["b", "a", "b", "c", "a", "b"])), strings(&["b", "a", "c"]));
    assert_eq!(drop_repeats(Vec::new()), Vec::<String>::new());
    assert_eq!(drop_repeats(strings(&["x", "x", "x"])), strings(&["x"]));
    assert!(holds(&strings(&["a", "b"]), &"b".to_string()));
    assert!(!holds(&strings(&["a", "b"]), &"c".to_string()));
    assert!(!holds(&Vec::new(), &"".to_string()));
}

#[test]
fn join_puts_one_string_behind_the_other() {
    assert_eq!(join("/Users/", "ann"), "/Users/ann");
    assert_eq!(join("", ""), "");
    assert_eq!(join("a", ""), "a");
    assert_eq!(join("", "b"), "b");
}

#[test]
fn home_directories_by_platform() {
    assert_eq!(home_directory("ann", false), "/Users/ann/");
    assert_eq!(home_directory("ann", true), "C:\\Users\\ann\\");
    assert_eq!(tree_home("ann"), "/Users/ann");
}

#[test]
fn scan_directories_lie_under_one_home() {
    let mut config = ScanConfiguration::new();
    config.add_custom_directory("/data".to_string()).unwrap();
    let list = scan_directories(&config, false);
    assert_eq!(list.len(), 4);
    assert!(list[0].starts_with("/Users/"));
    assert!(list[0].ends_with("/Downloads"));
    let home = &list[0][..list[0].len() - "Downloads".len()];
    assert!(home.len() > "/Users//".len());
    assert_eq!(list[1], format!("{}Documents", home));
    assert_eq!(list[2], format!("{}Desktop", home));
    assert_eq!(list[3], "/data");
    let windows = scan_directories(&config, true);
    assert!(windows[0].starts_with("C:\\Users\\"));
    assert!(windows[0].ends_with("\\Downloads"));
}

#[test]
fn display_roots_show_directories_outside_the_home_as_they_are() {
    let list = vec![
        ScanCandidate::new("/srv/data/a.txt".to_string(), "a.txt".to_string(), 20),
        ScanCandidate::new("/srv/b.txt".to_string(), "b.txt".to_string(), 20),
    ];
    let tree = rebuild_tree(&list);
    assert_eq!(display_roots(&tree), vec!["/srv", "/srv/data"]);
}

#[test]
fn the_holding_directory_lies_in_the_home() {
    let holding = holding_directory(false);
    assert!(holding.starts_with("/Users/"));
    assert!(holding.ends_with("/PinnacleSortHolding"));
    let config = ScanConfiguration::new();
    let downloads = &scan_directories(&config, false)[0];
    let home = &downloads[..downloads.len() - "Downloads".len()];
    assert_eq!(holding, format!("{}PinnacleSortHolding", home));
    assert!(holding_directory(true).ends_with("\\PinnacleSortHolding"));
}

#[test]
fn validity_is_the_range_of_the_threshold_and_no_empty_directory() {
    let mut config = ScanConfiguration::default();
    assert!(config.is_valid());
    config.time_limit_days = 0;
    assert!(!config.is_valid());
    config.time_limit_days = MAX_TIME_LIMIT_DAYS + 1;
    assert!(!config.is_valid());
    config.time_limit_days = MAX_TIME_LIMIT_DAYS;
    assert!(config.is_valid());
    config.custom_directories.push("/ok".to_string());
    assert!(config.is_valid());
    config.custom_directories.push(String::new());
    assert!(!config.is_valid());
}
