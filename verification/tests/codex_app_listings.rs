use remote_codex_core::codex_app::{
    join_texts, launch_failure_entry, launch_failure_text, windows_launch_order, codex_store_packages, count_codex_lines, i32_to_text, listed_paths, parse_i32, process_ids,
};

#[test]
fn tasklist_lines_naming_codex_are_counted() {
    let listing = "\"codex.exe\",\"1234\",\"Console\"\r\n\"Codex.EXE\",\"99\"\r\nINFO: No tasks\r\n\"notepad.exe\",\"1\"\r\n";
    assert_eq!(count_codex_lines(listing), 2);
    assert_eq!(count_codex_lines(""), 0);
}

#[test]
fn integers_are_read_as_str_parse_reads_them() {
    assert_eq!(parse_i32("123"), Some(123));
    assert_eq!(parse_i32("+7"), Some(7));
    assert_eq!(parse_i32("-0042"), Some(-42));
    assert_eq!(parse_i32("2147483647"), Some(i32::MAX));
    assert_eq!(parse_i32("-2147483648"), Some(i32::MIN));
    assert_eq!(parse_i32("2147483648"), None);
    assert_eq!(parse_i32("-2147483649"), None);
    assert_eq!(parse_i32("99999999999999999999"), None);
    assert_eq!(parse_i32(""), None);
    assert_eq!(parse_i32("-"), None);
    assert_eq!(parse_i32("+"), None);
    assert_eq!(parse_i32("12a"), None);
    assert_eq!(parse_i32(" 1"), None);
    for s in ["0", "-1", "+15", "000", "-2147483648", "1e3", "--1"] {
        assert_eq!(parse_i32(s), s.parse::<i32>().ok(), "{s}");
    }
    assert_eq!(i32_to_text(-42), "-42");
    assert_eq!(i32_to_text(i32::MIN), "-2147483648");
    assert_eq!(i32_to_text(0), "0");
}

#[test]
fn pgrep_listing_gives_process_ids() {
    assert_eq!(process_ids(" 123 \n+0045\nabc\n\n-7\n"), vec!["123", "45", "-7"]);
    assert!(process_ids("").is_empty());
}

#[test]
fn where_listing_gives_paths() {
    assert_eq!(
        listed_paths("  C:\\A\\codex.exe \r\n\r\n   \nC:\\B\\codex.exe"),
        vec!["C:\\A\\codex.exe", "C:\\B\\codex.exe"]
    );
}

#[test]
fn store_packages_newest_first() {
    let names = vec![
        "OpenAI.Codex_1.0.0.0_x64".to_string(),
        "Microsoft.Other".to_string(),
        "OpenAI.Codex_2.0.0.0_x64".to_string(),
        "openai.codex_3".to_string(),
    ];
    let packages = codex_store_packages(&names);
    assert_eq!(
        packages.iter().map(|p| p.name.as_str()).collect::<Vec<_>>(),
        vec!["OpenAI.Codex_2.0.0.0_x64", "OpenAI.Codex_1.0.0.0_x64"]
    );
}

#[test]
fn windows_launch_tries_installs_then_the_path() {
    let found = vec![r"C:\Apps\Codex.exe".to_string()];
    assert_eq!(
        windows_launch_order(&found),
        vec![r"C:\Apps\Codex.exe".to_string(), "codex.exe".to_string(), "codex".to_string()]
    );
    assert_eq!(windows_launch_order(&Vec::new()), vec!["codex.exe".to_string(), "codex".to_string()]);
}

#[test]
fn windows_launch_failure_message_lists_failures_and_searched_places() {
    let failures = vec![
        launch_failure_entry("codex.exe", "program not found"),
        launch_failure_entry("codex", "program not found"),
    ];
    let searched = vec![r"C:\a\Codex.exe".to_string(), r"C:\b\codex.exe".to_string()];
    assert_eq!(
        launch_failure_text(&failures, &searched),
        "Codex executable could not be opened. Install Codex or ensure codex.exe is on PATH. Launch failures: codex.exe (program not found); codex (program not found). Searched: C:\\a\\Codex.exe, C:\\b\\codex.exe"
    );
    assert_eq!(
        launch_failure_text(&Vec::new(), &Vec::new()),
        "Codex executable could not be opened. Install Codex or ensure codex.exe is on PATH. Searched: "
    );
    assert_eq!(join_texts(&vec!["a".to_string()], ", "), "a");
}
