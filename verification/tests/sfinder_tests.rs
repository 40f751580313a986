use sfinder_gui_lib::commands::{PathResultEntry, SfinderCommandConfig};
use sfinder_gui_lib::sfinder::{
    build_cli_args, choose_jar_path, choose_java, cover_csv_location, cover_results_from_csv,
    ended_without_termination, finish_run, invocation, output_file_candidates, path_coverage_from_csv,
    path_csv_location, resolve_output_dir, run_step, strict_minimal_from_csv, RunEvent, RunLog, RunStep,
};

fn config(command: &str) -> SfinderCommandConfig {
    SfinderCommandConfig {
        command: command.to_string(),
        tetfu: vec![],
        jar_path: None,
        java_path: None,
        page: None,
        clear_line: None,
        patterns: None,
        hold: None,
        drop: None,
        kicks: None,
        format: None,
        split: None,
        specified_only: None,
        reserved: None,
        output_base: None,
        field_path: None,
        patterns_path: None,
        threads: None,
        max_layer: None,
        key: None,
        mode: None,
        cover_logic: None,
    }
}

fn full_config(command: &str) -> SfinderCommandConfig {
    let mut c = config(command);
    c.tetfu = vec!["v115@X".to_string(), "".to_string()];
    c.page = Some(2);
    c.clear_line = Some(4);
    c.patterns = Some("*p7".to_string());
    c.hold = Some("use".to_string());
    c.format = Some("html".to_string());
    c.split = Some(true);
    c.specified_only = Some(true);
    c.reserved = Some(true);
    c.threads = Some(4);
    c.key = Some("k".to_string());
    c.mode = Some("tspin".to_string());
    c
}

const PATH_CSV: &str = "pattern,coverage,used,unused,fumen\n\
                        TIO,100,T,IO,v115@A;v115@B\n\
                        TOI,100,O,TI, v115@B ;\n\
                        ITO,0,,ITO,\n\
                        short,row\n";

#[test]
fn path_arguments() {
    let args = build_cli_args(&full_config("path"));
    assert_eq!(
        args,
        vec![
            "path", "--tetfu", "v115@X", "--page", "2", "--clear-line", "4", "--patterns", "*p7",
            "--hold", "use", "--format", "html", "--split", "yes", "--specified-only", "--reserved",
            "--threads", "4", "--key", "k"
        ]
    );
}

#[test]
fn cover_arguments() {
    let mut c = full_config("cover");
    c.output_base = Some("out".to_string());
    c.tetfu = vec!["v115@Y".to_string()];
    let args = build_cli_args(&c);
    assert_eq!(
        args,
        vec!["--output-base", "out", "cover", "--tetfu", "v115@Y", "--max-clearline", "4", "--patterns", "*p7",
            "--hold", "use", "--reserved", "--threads", "4", "--mode", "tspin"]
    );
}

#[test]
fn minimal_arguments() {
    assert_eq!(build_cli_args(&config("percent")), vec!["percent"]);
}

#[test]
fn path_coverage_counts_each_code() {
    let (entries, total) = path_coverage_from_csv(PATH_CSV);
    assert_eq!(total, 3);
    assert_eq!(entries.len(), 2);
    assert_eq!((entries[0].fumen.as_str(), entries[0].coverage, entries[0].used.as_str()), ("v115@B", 2, "O"));
    assert_eq!((entries[1].fumen.as_str(), entries[1].coverage, entries[1].used.as_str()), ("v115@A", 1, "T"));
}

#[test]
fn path_coverage_of_empty_table() {
    assert_eq!(path_coverage_from_csv("").1, 0);
    assert!(path_coverage_from_csv("header only").0.is_empty());
}

#[test]
fn strict_minimal_picks_greedy_cover() {
    let (entries, _) = path_coverage_from_csv(PATH_CSV);
    let minimal = strict_minimal_from_csv(&entries, PATH_CSV);
    assert_eq!(minimal.len(), 1);
    assert_eq!(minimal[0].fumen, "v115@B");
    assert_eq!(minimal[0].coverage, 2);
}

#[test]
fn strict_minimal_needs_two_codes() {
    let csv = "h\nA,1,T,,f1\nB,1,O,,f2\nC,1,I,,f1;f2\n";
    let (entries, _) = path_coverage_from_csv(csv);
    let minimal = strict_minimal_from_csv(&entries, csv);
    let codes: Vec<&str> = minimal.iter().map(|e| e.fumen.as_str()).collect();
    assert_eq!(codes, vec!["f1", "f2"]);
    assert!(strict_minimal_from_csv(&entries, "").is_empty());
}

#[test]
fn cover_table_records() {
    let csv = "pattern,coverage,used,unused,fumen\nTIO, 75 ,T,IO,v115@A\nbad\nOOO,x,O,,v115@B\n";
    let (entries, total) = cover_results_from_csv(csv);
    assert_eq!(total, 2);
    assert_eq!(entries[0].pattern, "TIO");
    assert_eq!(entries[0].coverage, 75);
    assert_eq!(entries[0].fumen, "v115@A");
    assert_eq!(entries[1].pattern, "OOO");
    assert_eq!(entries[1].coverage, 0);
    assert_eq!(entries[1].used, "O");
}

#[test]
fn output_locations() {
    let mut c = config("cover");
    assert_eq!(resolve_output_dir(&c), "output");
    c.output_base = Some("".to_string());
    assert_eq!(resolve_output_dir(&c), "output");
    c.output_base = Some("res".to_string());
    assert_eq!(resolve_output_dir(&c), "res");
    assert_eq!(cover_csv_location(&c), Some("res/cover.csv".to_string()));
    assert_eq!(path_csv_location(&c), None);
    assert_eq!(path_csv_location(&config("path")), Some("output/path.csv".to_string()));
    assert_eq!(
        output_file_candidates(&config("path")),
        vec!["path.html", "path_unique.html", "path_minimal.html", "path.txt"]
    );
}

#[test]
fn jar_and_java_choice() {
    let mut c = config("path");
    let none: Option<String> = None;
    assert_eq!(
        choose_jar_path(&c, &String::new(), &none).unwrap_err(),
        "sfinder.jar not found. Place it in Settings or bundle with the app."
    );
    assert_eq!(choose_jar_path(&c, &String::new(), &Some("b.jar".to_string())), Ok("b.jar".to_string()));
    assert_eq!(choose_jar_path(&c, &"s.jar".to_string(), &Some("b.jar".to_string())), Ok("s.jar".to_string()));
    c.jar_path = Some("c.jar".to_string());
    assert_eq!(choose_jar_path(&c, &"s.jar".to_string(), &none), Ok("c.jar".to_string()));
    assert_eq!(choose_java(&c, &String::new()), "java");
    assert_eq!(choose_java(&c, &"/opt/java".to_string()), "/opt/java");
    c.java_path = Some("/usr/bin/java".to_string());
    assert_eq!(choose_java(&c, &"/opt/java".to_string()), "/usr/bin/java");
}

#[test]
fn command_line_shown() {
    let mut c = config("path");
    c.tetfu = vec!["v115@Z".to_string()];
    let (args, line) = invocation(&"java".to_string(), &"sf.jar".to_string(), &c);
    assert_eq!(args, vec!["-jar", "sf.jar", "path", "--tetfu", "v115@Z"]);
    assert_eq!(line, "java -jar sf.jar path --tetfu v115@Z");
}

#[test]
fn run_events() {
    let mut log = RunLog { stdout: String::new(), stderr: String::new() };
    assert_eq!(run_step(&mut log, RunEvent::Stdout("a".to_string())), RunStep::Continue);
    assert_eq!(run_step(&mut log, RunEvent::Stdout("b".to_string())), RunStep::Continue);
    assert_eq!(run_step(&mut log, RunEvent::Stderr("e".to_string())), RunStep::Continue);
    assert_eq!(run_step(&mut log, RunEvent::Other), RunStep::Continue);
    assert_eq!((log.stdout.as_str(), log.stderr.as_str()), ("ab", "e"));
    assert_eq!(run_step(&mut log, RunEvent::Terminated(Some(3))), RunStep::Finished(Some(3)));
    assert_eq!(
        run_step(&mut log, RunEvent::Error("boom".to_string())),
        RunStep::Failed("Process error: boom".to_string())
    );
    assert_eq!(ended_without_termination(), "Process ended without termination event");
}

#[test]
fn finished_path_run() {
    let c = config("path");
    let out = finish_run(
        &c,
        "out".to_string(),
        "err".to_string(),
        None,
        vec!["output/path.html".to_string()],
        "java -jar sf.jar path".to_string(),
        Some(PATH_CSV.to_string()),
        None,
    );
    assert_eq!(out.exit_code, -1);
    assert_eq!(out.path_total_patterns, Some(3));
    let results = out.path_results.expect("path results");
    assert_eq!(results.len(), 2);
    let minimal: Vec<PathResultEntry> = out.strict_minimal.expect("minimal");
    assert_eq!(minimal.len(), 1);
    assert!(out.cover_results.is_none());
    assert!(out.cover_total_patterns.is_none());
    assert_eq!(out.output_files, vec!["output/path.html"]);
}

#[test]
fn finished_cover_run_without_table() {
    let out = finish_run(&config("cover"), String::new(), String::new(), Some(0), vec![], String::new(), None, None);
    assert_eq!(out.exit_code, 0);
    assert!(out.cover_results.is_none());
    assert!(out.path_results.is_none());
    assert!(out.strict_minimal.is_none());
}
