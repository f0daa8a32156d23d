use rsou::filebrowser::{
    ensure_extension, expand_input_path, expand_path, ext_allowed, filter_indices, format_size, is_hidden,
    name_matches, parent_dir, parse_user_dir, read_error, sort_entries, Entry, FilterOpts,
    ReadFailure,
};

fn entry(name: &str, is_dir: bool, size: u64) -> Entry {
    Entry { name: name.into(), path: format!("/d/{name}"), is_dir, size }
}

fn names<'a>(entries: &'a [Entry], indices: &[usize]) -> Vec<&'a str> {
    indices.iter().map(|&i| entries[i].name.as_str()).collect()
}

#[test]
fn list_dir_dirs_first_and_case_insensitive() {
    let mut entries = vec![
        entry("b.xlsx", false, 3),
        entry("A.xlsx", false, 3),
        entry(".hidden.xlsx", false, 3),
        entry("zdir", true, 0),
        entry("adir", true, 0),
    ];
    sort_entries(&mut entries);
    assert_eq!(
        names(&entries, &(0..entries.len()).collect::<Vec<_>>()),
        vec!["adir", "zdir", ".hidden.xlsx", "A.xlsx", "b.xlsx"]
    );
    assert!(entries[0].is_dir);
    assert_eq!(entries[0].size_label(), "—");
    assert_eq!(entries[3].size_label(), "3 B");
}

#[test]
fn list_dir_missing_reports_chinese_reason() {
    let err = read_error("/tmp/rsou_fb_不存在", ReadFailure::NotFound, "no such file");
    assert!(err.starts_with("目录不存在:"), "{err}");
}

#[test]
fn parent_dir_stops_at_root() {
    assert_eq!(parent_dir("/"), None);
    assert_eq!(parent_dir("/home"), Some("/".to_owned()));
    assert_eq!(parent_dir("/home/u/Documents"), Some("/home/u".to_owned()));
}

#[test]
fn filter_applies_hidden_query_and_ext() {
    let exts = vec!["xlsx".to_owned()];
    let entries = vec![
        entry("2024报表", true, 0),
        entry(".secret.xlsx", false, 1),
        entry("报表.txt", false, 1),
        entry("报表.xlsx", false, 1),
    ];
    let opts = FilterOpts { show_hidden: false, query: "报表", exts: &exts };
    let hit = filter_indices(&entries, &opts);
    assert_eq!(names(&entries, &hit), vec!["2024报表", "报表.xlsx"]);
    let opts = FilterOpts { show_hidden: true, query: "", exts: &vec![] };
    assert_eq!(filter_indices(&entries, &opts).len(), 4);
}

#[test]
fn ext_and_name_match_ignores_case() {
    let exts = vec!["xlsx".to_owned()];
    assert!(ext_allowed("A.XLSX", &exts));
    assert!(!ext_allowed("A.xls", &exts));
    assert!(!ext_allowed("无后缀", &exts));
    assert!(ext_allowed("任意.txt", &vec![]));
    assert!(name_matches("连接结果.xlsx", "  结果  "));
    assert!(name_matches("abc", ""));
    assert!(!name_matches("abc", "abd"));
}

#[test]
fn format_size_units() {
    assert_eq!(format_size(0), "0 B");
    assert_eq!(format_size(999), "999 B");
    assert_eq!(format_size(1024), "1.00 KB");
    assert_eq!(format_size(10 * 1024), "10.0 KB");
    assert_eq!(format_size(10 * 1024 * 1024), "10.0 MB");
    assert_eq!(format_size(100 * 1024 * 1024), "100 MB");
}

#[test]
fn ensure_extension_only_appends_when_missing() {
    assert_eq!(ensure_extension("连接结果", "xlsx"), "连接结果.xlsx");
    assert_eq!(ensure_extension("连接结果.XLSX", "xlsx"), "连接结果.XLSX");
    assert_eq!(ensure_extension("a.b", "xlsx"), "a.b.xlsx");
    assert_eq!(ensure_extension("", "xlsx"), "");
}

#[test]
fn expand_input_path_handles_tilde_relative_and_absolute() {
    let cwd = "/tmp/work";
    let home = "/home/u";
    assert_eq!(expand_input_path("报表.xlsx", cwd, home), "/tmp/work/报表.xlsx");
    assert_eq!(expand_input_path("  报表.xlsx ", cwd, home), "/tmp/work/报表.xlsx");
    assert_eq!(expand_input_path("/data/报表.xlsx", cwd, home), "/data/报表.xlsx");
    assert_eq!(expand_input_path("~/下载", cwd, home), "/home/u/下载");
    assert_eq!(expand_input_path("~", cwd, home), home);
}

#[test]
fn parse_user_dir_expands_home_and_skips_disabled() {
    let home = "/home/u";
    let text = "# 注释\nXDG_DESKTOP_DIR=\"$HOME/桌面\"\nXDG_DOWNLOAD_DIR=\"\"\nXDG_DOCUMENTS_DIR=\"/data/doc\"\n";
    assert_eq!(parse_user_dir(text, "XDG_DESKTOP_DIR", home), Some("/home/u/桌面".to_owned()));
    assert_eq!(parse_user_dir(text, "XDG_DOCUMENTS_DIR", home), Some("/data/doc".to_owned()));
    assert_eq!(parse_user_dir(text, "XDG_DOWNLOAD_DIR", home), None);
    assert_eq!(parse_user_dir(text, "XDG_MUSIC_DIR", home), None);
}

#[test]
fn kind_label_reads_extension() {
    assert_eq!(entry("报表.XLSB", false, 0).kind_label(), "XLSB");
    assert_eq!(entry("无后缀", false, 0).kind_label(), "文件");
    assert_eq!(entry("目录", true, 0).kind_label(), "文件夹");
    assert_eq!(entry("a.straße", false, 0).kind_label(), "STRASSE");
}

/// The size as floating point numbers give it.
fn float_size(bytes: u64) -> String {
    const UNITS: [&str; 5] = ["B", "KB", "MB", "GB", "TB"];
    if bytes < 1024 {
        return format!("{bytes} B");
    }
    let mut value = bytes as f64;
    let mut unit = 0;
    while value >= 1024.0 && unit < UNITS.len() - 1 {
        value /= 1024.0;
        unit += 1;
    }
    if value >= 100.0 {
        format!("{value:.0} {}", UNITS[unit])
    } else if value >= 10.0 {
        format!("{value:.1} {}", UNITS[unit])
    } else {
        format!("{value:.2} {}", UNITS[unit])
    }
}

#[test]
fn sizes_agree_with_floating_point() {
    for bytes in 0..200_000u64 {
        assert_eq!(format_size(bytes), float_size(bytes), "{bytes}");
    }
    let mut seed = 7u64;
    for _ in 0..200_000 {
        seed = seed.wrapping_mul(6364136223846793005).wrapping_add(1442695040888963407);
        let bytes = seed >> ((seed >> 7) % 64);
        assert_eq!(format_size(bytes), float_size(bytes), "{bytes}");
    }
    for power in 0..64 {
        let base = 1u64 << power;
        for bytes in [base - 1, base, base + 1, base + base / 2, base + base / 4] {
            assert_eq!(format_size(bytes), float_size(bytes), "{bytes}");
        }
    }
    assert_eq!(format_size(u64::MAX), float_size(u64::MAX));
}

#[test]
fn reasons_of_failed_listings() {
    assert_eq!(read_error("/d", ReadFailure::NotFound, "x"), "目录不存在: /d");
    assert!(read_error("/d", ReadFailure::PermissionDenied, "x").contains("/d"));
    assert!(read_error("/d", ReadFailure::Other, "原因").contains("原因"));
}

#[test]
fn entries_of_equal_folded_name_keep_their_order() {
    let mut entries = vec![entry("B", false, 1), entry("b", false, 2), entry("É", false, 3), entry("a", false, 4)];
    sort_entries(&mut entries);
    assert_eq!(names(&entries, &[0, 1, 2, 3]), ["a", "B", "b", "É"]);
}

#[test]
fn hidden_names_start_with_a_dot() {
    assert!(is_hidden(".git"));
    assert!(!is_hidden("a.git"));
    assert!(!is_hidden(""));
}

#[test]
fn typed_paths_are_expanded() {
    assert_eq!(expand_path(" ~ ", false, "/w", "/home/u"), "/home/u");
    assert_eq!(expand_path("~/a.txt", false, "/w", "/home/u"), "/home/u/a.txt");
    assert_eq!(expand_path("a.txt", false, "/w", "/home/u"), "/w/a.txt");
    assert_eq!(expand_path("a.txt", false, "/w/", "/home/u"), "/w/a.txt");
    assert_eq!(expand_path("/x/a.txt", true, "/w", "/home/u"), "/x/a.txt");
    assert_eq!(expand_path("/x/a.txt", false, "/w", "/home/u"), "/x/a.txt");
    assert_eq!(expand_input_path("/数据/报表.xlsx", "/工作:一", "/home/u"), "/数据/报表.xlsx");
    assert_eq!(expand_path("C:\\a.txt", true, "D:\\w", "C:\\u"), "C:\\a.txt");
}

#[test]
fn extensions_are_added_once() {
    for (name, ext) in [
        ("结果", "xlsx"), ("结果.", "XLSX"), ("a.xls", "xlsx"), ("ΑΣ", "Csv"), ("İ", "txt"), ("a", "tar.gz"),
    ] {
        let once = ensure_extension(name, ext);
        assert_eq!(once, format!("{name}.{ext}"));
        assert_eq!(ensure_extension(&once, ext), once);
    }
}
