use rsou::normalize::{normalize, plan, Change, PlainPaths, StoredPath};

/// The effect of stripping the prefix on Windows.
fn strip_fake(stored: &str) -> String {
    stored.strip_prefix(r"\\?\").unwrap_or(stored).to_owned()
}

fn rows(pairs: &[(i64, &str, &str)]) -> Vec<StoredPath> {
    pairs
        .iter()
        .map(|(id, p, c)| StoredPath {
            id: *id,
            path: (*p).to_owned(),
            canonical_path: (*c).to_owned(),
        })
        .collect()
}

fn plan_with(rows: &Vec<StoredPath>) -> Vec<Change> {
    let plain: Vec<PlainPaths> = rows
        .iter()
        .map(|row| PlainPaths {
            path: strip_fake(&row.path),
            canonical_path: strip_fake(&row.canonical_path),
        })
        .collect();
    plan(rows, &plain)
}

#[test]
fn clean_paths_produce_no_changes() {
    let plan = plan_with(&rows(&[
        (1, r"C:\docs\a.docx", r"C:\docs\a.docx"),
        (2, "/home/ljw/docs/b.pdf", "/home/ljw/docs/b.pdf"),
    ]));
    assert!(plan.is_empty(), "干净路径不应产生改动: {plan:?}");
}

#[test]
fn prefixed_paths_are_rewritten_on_both_columns() {
    let plan = plan_with(&rows(&[(1, r"\\?\C:\docs\a.docx", r"\\?\C:\docs\a.docx")]));
    assert_eq!(
        plan,
        [Change::Rewrite {
            id: 1,
            path: r"C:\docs\a.docx".to_owned(),
            canonical_path: r"C:\docs\a.docx".to_owned(),
        }]
    );
}

#[test]
fn one_sided_prefix_is_normalized_too() {
    let plan = plan_with(&rows(&[(1, r"C:\docs\a.docx", r"\\?\C:\docs\a.docx")]));
    assert_eq!(
        plan,
        [Change::Rewrite {
            id: 1,
            path: r"C:\docs\a.docx".to_owned(),
            canonical_path: r"C:\docs\a.docx".to_owned(),
        }]
    );
}

#[test]
fn collision_keeps_first_row_and_drops_the_duplicate() {
    let plan = plan_with(&rows(&[
        (1, r"C:\docs\a.docx", r"C:\docs\a.docx"),
        (2, r"\\?\C:\docs\a.docx", r"\\?\C:\docs\a.docx"),
    ]));
    assert_eq!(plan, [Change::DropDuplicate { id: 2 }], "应保留先到的行");
}

#[test]
fn collision_among_prefixed_rows_keeps_first() {
    let plan = plan_with(&rows(&[
        (5, r"\\?\C:\docs\b.docx", r"\\?\C:\docs\b.docx"),
        (9, r"\\?\C:\docs\b.docx", r"\\?\C:\docs\b.docx"),
    ]));
    assert_eq!(
        plan,
        [
            Change::Rewrite {
                id: 5,
                path: r"C:\docs\b.docx".to_owned(),
                canonical_path: r"C:\docs\b.docx".to_owned(),
            },
            Change::DropDuplicate { id: 9 },
        ]
    );
}

#[test]
fn re_running_over_a_rewritten_plan_is_a_noop() {
    let after = rows(&[(1, r"C:\docs\a.docx", r"C:\docs\a.docx")]);
    assert!(plan_with(&after).is_empty());
}

#[test]
fn a_second_run_finds_nothing_to_do() {
    let mut stored = rows(&[
        (1, r"C:\a.txt", r"C:\a.txt"),
        (2, r"\\?\C:\a.txt", r"\\?\C:\a.txt"),
        (3, r"\\?\C:\b.txt", r"C:\b.txt"),
    ]);
    for change in plan_with(&stored) {
        match change {
            Change::DropDuplicate { id } => stored.retain(|row| row.id != id),
            Change::Rewrite { id, path, canonical_path } => {
                for row in stored.iter_mut().filter(|row| row.id == id) {
                    row.path = path.clone();
                    row.canonical_path = canonical_path.clone();
                }
            }
        }
    }
    let paths: Vec<&str> = stored.iter().map(|row| row.path.as_str()).collect();
    assert_eq!(paths, [r"C:\a.txt", r"C:\b.txt"]);
    assert!(plan_with(&stored).is_empty());
}

#[test]
fn plain_paths_are_left_alone_on_every_platform() {
    let stored = rows(&[(1, "/d/a.txt", "/d/a.txt"), (2, "/d/b.txt", "/d/b.txt")]);
    assert!(normalize(&stored).is_empty());
    // The same path twice is stored once.
    let stored = rows(&[(1, "/d/a.txt", "/d/a.txt"), (2, "/d/a.txt", "/d/a.txt")]);
    assert_eq!(normalize(&stored), [Change::DropDuplicate { id: 2 }]);
}
