use rsou::file_dialog::{
    document_filters, FileDialog, Filter, Purpose, Step, PARENT_ROW,
};
use rsou::filebrowser::Entry;

fn entry(name: &str, is_dir: bool) -> Entry {
    Entry { name: name.to_owned(), path: format!("/d/{name}"), is_dir, size: 1 }
}

fn dialog(purpose: Purpose) -> FileDialog {
    let entries =
        vec![entry("目录", true), entry(".隐藏.txt", false), entry("a.txt", false), entry("b.exe", false)];
    FileDialog::new(
        purpose,
        "选择文档",
        "添加文件",
        "/d".to_owned(),
        entries,
        Some("/".to_owned()),
        "",
        document_filters(),
    )
}

#[test]
fn dialogs_start_with_nothing_selected() {
    let open = FileDialog::open("t", "h", "/d".to_owned(), vec![], None, document_filters());
    assert_eq!((open.purpose, open.filters.len()), (Purpose::Open, 2));
    assert!(open.parent.is_none() && open.selected.is_none() && open.file_name.is_empty());
    let folder =
        FileDialog::pick_folder("t", "h", "/d".to_owned(), vec![], Some("/".to_owned()));
    assert_eq!((folder.purpose, folder.filters[0].label.as_str()), (Purpose::PickFolder, "文件夹"));
    assert_eq!(folder.parent.unwrap().path, "/");
    let filters = vec![Filter::new("文档", &vec!["MD"])];
    let save = FileDialog::save("t", "h", "/d".to_owned(), vec![], None, "检索结果.md", filters);
    assert_eq!((save.purpose, save.file_name.as_str()), (Purpose::Save, "检索结果.md"));
    assert_eq!(save.filters[0].exts, ["md"]);
}

#[test]
fn rows_show_what_the_filter_admits() {
    let mut open = dialog(Purpose::Open);
    assert_eq!(open.visible_rows(), [PARENT_ROW, 0, 2]);
    open.choose_filter(1);
    assert_eq!(open.visible_rows(), [PARENT_ROW, 0, 2, 3]);
    open.show_hidden = true;
    assert_eq!(open.visible_rows(), [PARENT_ROW, 0, 1, 2, 3]);
    open.query = "exe".to_owned();
    assert_eq!(open.visible_rows(), [PARENT_ROW, 3]);
    let mut folder = dialog(Purpose::PickFolder);
    folder.parent = None;
    assert_eq!(folder.visible_rows(), [0]);
}

#[test]
fn confirming_opens_or_picks() {
    let mut open = dialog(Purpose::Open);
    assert!(matches!(open.confirm(), Step::Stay));
    assert_eq!(open.error.as_deref(), Some("请先选择一个文件"));
    open.select("/d/a.txt".to_owned());
    assert!(open.can_confirm());
    assert!(matches!(open.confirm(), Step::Pick(path) if path == "/d/a.txt"));
    open.select("/d/目录".to_owned());
    assert_eq!(open.selected_entry(), Some(("/d/目录".to_owned(), true)));
    assert!(matches!(open.confirm(), Step::Enter(path) if path == "/d/目录"));
    let mut folder = dialog(Purpose::PickFolder);
    assert!(matches!(folder.confirm(), Step::Pick(path) if path == "/d"));
}

#[test]
fn saving_asks_before_overwriting() {
    let mut save = dialog(Purpose::Save);
    save.filters = vec![Filter::new("表格", &vec!["xlsx"])];
    assert_eq!(save.entered_name(), None);
    assert_eq!(save.error.as_deref(), Some("请输入文件名"));
    save.file_name = "结果".to_owned();
    assert_eq!(save.entered_name().as_deref(), Some("结果"));
    assert_eq!(save.saved_name("结果"), "结果.xlsx");
    assert_eq!(save.confirm_label(), "保存");
    let target = "/d/结果.xlsx".to_owned();
    assert!(matches!(save.confirm_save(target.clone(), false, "/d", true, true), Step::Stay));
    assert_eq!(save.overwrite.as_deref(), Some("/d/结果.xlsx"));
    assert_eq!(save.confirm_label(), "覆盖保存");
    let step = save.confirm_save(target.clone(), false, "/d", true, true);
    assert!(matches!(step, Step::Pick(path) if path == target));
    let step = save.confirm_save(target.clone(), true, "/d", true, true);
    assert!(matches!(step, Step::Stay));
    assert_eq!(save.error.as_deref(), Some("该路径是一个文件夹,请输入文件名"));
    save.confirm_save(target, false, "/x", false, false);
    assert_eq!(save.error.as_deref(), Some("文件夹不存在: /x"));
}

#[test]
fn listings_replace_each_other() {
    let mut open = dialog(Purpose::Open);
    open.select("/d/a.txt".to_owned());
    open.entered("/e".to_owned(), Ok(vec![entry("c.txt", false)]), Some("/".to_owned()));
    assert_eq!(open.dir, "/e");
    assert_eq!(open.entries.len(), 1);
    assert!(open.selected.is_none());
    open.refreshed(Err("目录不存在: /e".to_owned()));
    assert_eq!(open.error.as_deref(), Some("目录不存在: /e"));
}

#[test]
fn typed_paths_that_do_not_exist() {
    let mut open = dialog(Purpose::Open);
    let step = open.missing_path("/d/x.txt", Some("/d"), true, Some("x.txt"));
    assert!(matches!(step, Step::Stay));
    assert_eq!(open.error.as_deref(), Some("路径不存在: /d/x.txt"));
    let mut save = dialog(Purpose::Save);
    let step = save.missing_path("/e/x.txt", Some("/e"), true, Some("x.txt"));
    assert!(matches!(step, Step::Enter(path) if path == "/e"));
    assert_eq!(save.file_name, "x.txt");
}

#[test]
fn tips_tell_what_happens() {
    let mut open = dialog(Purpose::Open);
    assert_eq!(open.tip("", &open.visible_rows()), "共 2 个项目");
    open.select("/d/a.txt".to_owned());
    assert_eq!(open.tip("a.txt", &vec![]), "已选择:a.txt");
    let folder = dialog(Purpose::PickFolder);
    assert_eq!(folder.tip("", &vec![PARENT_ROW, 0]), "将导入当前文件夹:/d");
}

#[test]
fn named_files_are_taken() {
    let mut open = dialog(Purpose::Open);
    let step = open.take_file("/e/x.txt".to_owned(), Some("/e"), Some("x.txt"));
    assert!(matches!(step, Step::Pick(path) if path == "/e/x.txt"));
    let mut folder = dialog(Purpose::PickFolder);
    let step = folder.take_file("/e/x.txt".to_owned(), Some("/e"), Some("x.txt"));
    assert!(matches!(step, Step::Stay));
    let mut save = dialog(Purpose::Save);
    let step = save.take_file("/e/x.txt".to_owned(), Some("/e"), Some("x.txt"));
    assert!(matches!(step, Step::Enter(path) if path == "/e"));
    assert_eq!(save.file_name, "x.txt");
    let step = save.take_file("/d/y.txt".to_owned(), Some("/d"), Some("y.txt"));
    assert!(matches!(step, Step::Stay));
}

#[test]
fn edits_ask_again_before_overwriting() {
    let mut save = dialog(Purpose::Save);
    let target = "/d/a.txt".to_owned();
    save.confirm_save(target.clone(), false, "/d", true, true);
    assert!(save.overwrite.is_some());
    save.name_edited();
    assert!(save.overwrite.is_none() && save.error.is_none());
    assert!(matches!(save.confirm_save(target.clone(), false, "/d", true, true), Step::Stay));
    save.hidden_toggled();
    assert!(matches!(save.confirm_save(target, false, "/d", true, true), Step::Stay));
}
