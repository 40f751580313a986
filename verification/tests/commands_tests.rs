use sfinder_gui_lib::commands::{desktop_bounds, jar_info, java_info, java_version};

#[test]
fn java_version_from_first_line() {
    assert_eq!(
        java_version("openjdk version \"17.0.1\" 2021-10-19\nOpenJDK Runtime Environment"),
        Some("17.0.1".to_string())
    );
    assert_eq!(java_version("java version \"1.8.0_292\"\r\nJava(TM) SE"), Some("1.8.0_292".to_string()));
    assert_eq!(java_version("java version \"21"), Some("21".to_string()));
    assert_eq!(java_version("no quotes here\n\"later\""), None);
    assert_eq!(java_version(""), None);
}

#[test]
fn java_check() {
    let ok = java_info("/usr/bin/java", true, "openjdk version \"17\"\n");
    assert!(ok.installed);
    assert_eq!(ok.version, Some("17".to_string()));
    assert_eq!(ok.path, Some("/usr/bin/java".to_string()));
    let missing = java_info("java", false, "openjdk version \"17\"\n");
    assert!(!missing.installed);
    assert_eq!(missing.version, None);
    assert_eq!(missing.path, None);
}

#[test]
fn jar_check() {
    let found = jar_info(true, "/x/sfinder.jar".to_string());
    assert!(found.found);
    assert_eq!(found.path, Some("/x/sfinder.jar".to_string()));
    let absent = jar_info(false, "/x/sfinder.jar".to_string());
    assert!(!absent.found);
    assert_eq!(absent.path, None);
    assert_eq!(absent.version, None);
}

#[test]
fn desktop_spans_all_monitors() {
    let screens = [(0, 0, 1920u32, 1080u32), (-1280, 100, 1280, 1024)];
    assert_eq!(desktop_bounds(&screens), (-1280, 0, 3200, 1124));
    assert_eq!(desktop_bounds(&[]), (i32::MAX, i32::MAX, 1920, 1080));
}
