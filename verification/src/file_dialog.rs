//! The dialog that a file or a folder is picked with: what it lists and what
//! its buttons do. Reading directories is left to the caller.

use vstd::prelude::*;
use vstd::string::StringExecFns;

use crate::filebrowser::{
    ensure_extension, filter_indices, shown_entries, with_extension, Entry, FilterOpts,
};
use crate::parse::{all_extensions, str_texts, supported_extensions};
use crate::paths::option_text;
use crate::search::index_views;
use crate::text::{decimal, decimal_of, lowered, same, texts, to_lowered, trim, trimmed};

verus! {

/// What a dialog is for.
#[derive(Debug, Clone, Copy, PartialEq, Eq, Structural)]
pub enum Purpose {
    Open,
    Save,
    PickFolder,
}

/// Kinds of files that are listed; no extension stands for all files.
#[derive(Debug)]
pub struct Filter {
    pub label: String,
    /// In lower case, without the dot.
    pub exts: Vec<String>,
}

/// Texts in lower case as far as they are ASCII letters.
pub open spec fn lowered_all(list: Seq<Seq<char>>) -> Seq<Seq<char>> {
    list.map_values(|s: Seq<char>| lowered(s))
}

impl Filter {
    pub fn new(label: &str, exts: &Vec<&'static str>) -> (f: Self)
        ensures
            f.label@ == label@,
            texts(f.exts@) == lowered_all(str_texts(exts@)),
    {
        let mut list: Vec<String> = Vec::new();
        let ghost all = lowered_all(str_texts(exts@));
        let mut i: usize = 0;
        while i < exts.len()
            invariant
                i <= exts@.len(),
                all == lowered_all(str_texts(exts@)),
                texts(list@) == all.take(i as int),
            decreases exts@.len() - i,
        {
            let ghost before = list@;
            list.push(to_lowered(exts[i]));
            i += 1;
            assert(texts(list@) =~= texts(before).push(lowered(exts@[i - 1]@)));
            assert(texts(list@) =~= all.take(i as int));
        }
        assert(texts(list@) =~= all);
        Filter { label: label.to_owned(), exts: list }
    }
}

/// The filters for documents: all that can be imported, or all files.
pub fn document_filters() -> (r: Vec<Filter>)
    ensures
        r@.len() == 2,
        r@[0].label@ == "文档(全部支持格式)"@,
        texts(r@[0].exts@) == lowered_all(all_extensions()),
        r@[1].label@ == "所有文件"@,
        r@[1].exts@.len() == 0,
{
    let mut r: Vec<Filter> = Vec::new();
    r.push(Filter::new("文档(全部支持格式)", &supported_extensions()));
    let none: Vec<&'static str> = Vec::new();
    let all = Filter::new("所有文件", &none);
    assert(texts(all.exts@).len() == all.exts@.len());
    r.push(all);
    r
}

/// What the user did in the end.
#[derive(Debug)]
pub enum DialogAction {
    /// Nothing yet; the dialog stays.
    Continue,
    /// A file or folder was picked.
    Picked(String),
    Cancelled,
}

/// What a button of the dialog leads to.
#[derive(Debug)]
pub enum Step {
    /// The dialog stays as it is.
    Stay,
    /// The path was picked.
    Pick(String),
    /// The directory has to be listed and gone to.
    Enter(String),
}

/// Stands for the directory above among the rows that are listed.
pub const PARENT_ROW: usize = usize::MAX;

/// The state of a dialog.
#[derive(Debug)]
pub struct FileDialog {
    pub purpose: Purpose,
    pub title: String,
    /// Says what the file is picked for.
    pub hint: String,
    pub filters: Vec<Filter>,
    pub filter_idx: usize,
    /// The directory that is listed.
    pub dir: String,
    pub entries: Vec<Entry>,
    /// The directory above, which is listed whatever the filter.
    pub parent: Option<Entry>,
    pub path_input: String,
    pub query: String,
    pub show_hidden: bool,
    /// The path that is selected.
    pub selected: Option<String>,
    /// The name of the file that is saved.
    pub file_name: String,
    pub error: Option<String>,
    /// A file that exists and is overwritten once that is confirmed.
    pub overwrite: Option<String>,
}

/// The entry for the directory above.
pub fn parent_entry(parent: Option<String>) -> (r: Option<Entry>)
    ensures
        r is Some <==> parent is Some,
        r is Some ==> (r->0).name@ == ".."@ && (r->0).path == parent->0 && (r->0).is_dir
            && (r->0).size == 0,
{
    match parent {
        Some(path) => Some(Entry { name: "..".to_owned(), path, is_dir: true, size: 0 }),
        None => None,
    }
}

/// The index of the first entry from the `i`-th on with a path.
pub open spec fn entry_from(entries: Seq<Entry>, path: Seq<char>, i: int) -> Option<int>
    decreases entries.len() - i,
{
    if i < 0 || i >= entries.len() {
        None
    } else if entries[i].path@ == path {
        Some(i)
    } else {
        entry_from(entries, path, i + 1)
    }
}

/// The rows without those that are files.
pub open spec fn directory_rows(entries: Seq<Entry>, rows: Seq<int>) -> Seq<int>
    decreases rows.len(),
{
    if rows.len() == 0 {
        Seq::empty()
    } else if entries[rows.last()].is_dir {
        directory_rows(entries, rows.drop_last()).push(rows.last())
    } else {
        directory_rows(entries, rows.drop_last())
    }
}

impl FileDialog {
    /// A filter is chosen.
    pub open spec fn wf(&self) -> bool {
        self.filter_idx < self.filters@.len()
    }

    /// What is selected: the path, and whether it is a directory. A path that
    /// is not listed is not selected.
    pub open spec fn selection(&self) -> Option<(Seq<char>, bool)> {
        match self.selected {
            None => None,
            Some(path) => match entry_from(self.entries@, path@, 0) {
                Some(i) => Some((path@, self.entries@[i].is_dir)),
                None => match self.parent {
                    Some(parent) => if parent.path@ == path@ {
                        Some((path@, parent.is_dir))
                    } else {
                        None
                    },
                    None => None,
                },
            },
        }
    }

    /// The rows that are listed: the directory above first, then the entries
    /// that pass the filter. Where a folder is picked, files are left out.
    pub open spec fn rows(&self) -> Seq<int> {
        let shown = shown_entries(
            self.entries@,
            self.show_hidden,
            self.query@,
            self.filters@[self.filter_idx as int].exts@,
            self.entries@.len() as int,
        );
        (if self.parent is Some {
            seq![PARENT_ROW as int]
        } else {
            Seq::empty()
        }) + (if self.purpose == Purpose::PickFolder {
            directory_rows(self.entries@, shown)
        } else {
            shown
        })
    }

    /// Nothing but what is shown differs: the selection and the messages.
    pub open spec fn same_listing(&self, other: &FileDialog) -> bool {
        &&& self.purpose == other.purpose
        &&& self.title == other.title
        &&& self.hint == other.hint
        &&& self.filters == other.filters
        &&& self.filter_idx == other.filter_idx
        &&& self.dir == other.dir
        &&& self.entries == other.entries
        &&& self.parent == other.parent
        &&& self.path_input == other.path_input
        &&& self.query == other.query
        &&& self.show_hidden == other.show_hidden
    }

    /// What is selected: the path, and whether it is a directory.
    pub fn selected_entry(&self) -> (r: Option<(String, bool)>)
        ensures
            (match r {
                Some((path, is_dir)) => Some((path@, is_dir)),
                None => None,
            }) == self.selection(),
    {
        match &self.selected {
            None => None,
            Some(path) => {
                let mut i: usize = 0;
                while i < self.entries.len()
                    invariant
                        i <= self.entries@.len(),
                        self.selected == Some(*path),
                        entry_from(self.entries@, path@, i as int) == entry_from(
                            self.entries@,
                            path@,
                            0,
                        ),
                    decreases self.entries@.len() - i,
                {
                    if same(self.entries[i].path.as_str(), path.as_str()) {
                        return Some((path.clone(), self.entries[i].is_dir));
                    }
                    i += 1;
                }
                match &self.parent {
                    Some(parent) => if same(parent.path.as_str(), path.as_str()) {
                        Some((path.clone(), parent.is_dir))
                    } else {
                        None
                    },
                    None => None,
                }
            },
        }
    }

    /// The rows that are listed.
    pub fn visible_rows(&self) -> (r: Vec<usize>)
        requires
            self.wf(),
        ensures
            index_views(r@) == self.rows(),
    {
        let opts = FilterOpts {
            show_hidden: self.show_hidden,
            query: self.query.as_str(),
            exts: &self.filters[self.filter_idx].exts,
        };
        let shown = filter_indices(&self.entries, &opts);
        let ghost all = index_views(shown@);
        let mut r: Vec<usize> = Vec::new();
        if self.parent.is_some() {
            r.push(PARENT_ROW);
        }
        let ghost head = index_views(r@);
        assert(head =~= if self.parent is Some {
            seq![PARENT_ROW as int]
        } else {
            Seq::empty()
        });
        let only = matches!(self.purpose, Purpose::PickFolder);
        let mut i: usize = 0;
        assert(all.take(0) =~= Seq::empty());
        assert(index_views(r@) =~= head + Seq::<int>::empty());
        while i < shown.len()
            invariant
                i <= shown@.len(),
                all == index_views(shown@),
                only == (self.purpose == Purpose::PickFolder),
                forall|k: int| 0 <= k < shown@.len() ==> #[trigger] shown@[k] < self.entries@.len(),
                index_views(r@) == head + (if only {
                    directory_rows(self.entries@, all.take(i as int))
                } else {
                    all.take(i as int)
                }),
            decreases shown@.len() - i,
        {
            let k = shown[i];
            let ghost before = index_views(r@);
            proof {
                assert(all[i as int] == k);
                assert(all.take(i + 1).drop_last() =~= all.take(i as int));
                assert(all.take(i + 1).last() == k);
            }
            if !only || self.entries[k].is_dir {
                r.push(k);
                assert(index_views(r@) =~= before.push(k as int));
                assert(all.take(i + 1) =~= all.take(i as int).push(k as int));
                assert(index_views(r@) =~= head + (if only {
                    directory_rows(self.entries@, all.take(i + 1))
                } else {
                    all.take(i + 1)
                }));
            }
            i += 1;
        }
        assert(all.take(i as int) =~= all);
        r
    }

    /// A dialog on a directory that was listed.
    pub fn new(
        purpose: Purpose,
        title: &str,
        hint: &str,
        dir: String,
        entries: Vec<Entry>,
        parent: Option<String>,
        file_name: &str,
        filters: Vec<Filter>,
    ) -> (dialog: Self)
        requires
            filters@.len() > 0,
        ensures
            dialog.wf(),
            dialog.purpose == purpose,
            dialog.title@ == title@,
            dialog.hint@ == hint@,
            dialog.filters == filters,
            dialog.filter_idx == 0,
            dialog.dir == dir,
            dialog.entries == entries,
            dialog.parent is Some <==> parent is Some,
            parent is Some ==> {
                let above = dialog.parent->0;
                above.name@ == ".."@ && above.path == parent->0 && above.is_dir && above.size == 0
            },
            dialog.path_input@ == dir@,
            dialog.query@.len() == 0,
            !dialog.show_hidden,
            dialog.selected is None,
            dialog.file_name@ == file_name@,
            dialog.error is None,
            dialog.overwrite is None,
    {
        FileDialog {
            purpose,
            title: title.to_owned(),
            hint: hint.to_owned(),
            filters,
            filter_idx: 0,
            path_input: dir.clone(),
            dir,
            entries,
            parent: parent_entry(parent),
            query: String::new(),
            show_hidden: false,
            selected: None,
            file_name: file_name.to_owned(),
            error: None,
            overwrite: None,
        }
    }

    /// A dialog to pick a file.
    pub fn open(
        title: &str,
        hint: &str,
        dir: String,
        entries: Vec<Entry>,
        parent: Option<String>,
        filters: Vec<Filter>,
    ) -> (dialog: Self)
        requires
            filters@.len() > 0,
        ensures
            dialog.wf(),
            dialog.purpose == Purpose::Open,
            dialog.title@ == title@,
            dialog.hint@ == hint@,
            dialog.filters == filters,
            dialog.filter_idx == 0,
            dialog.dir == dir,
            dialog.entries == entries,
            dialog.parent is Some <==> parent is Some,
            parent is Some ==> (dialog.parent->0).path == parent->0,
            dialog.path_input@ == dir@,
            dialog.query@.len() == 0,
            !dialog.show_hidden,
            dialog.selected is None,
            dialog.file_name@.len() == 0,
            dialog.error is None,
            dialog.overwrite is None,
    {
        proof {
            reveal_strlit("");
        }
        FileDialog::new(Purpose::Open, title, hint, dir, entries, parent, "", filters)
    }

    /// A dialog to pick a folder.
    pub fn pick_folder(
        title: &str,
        hint: &str,
        dir: String,
        entries: Vec<Entry>,
        parent: Option<String>,
    ) -> (dialog: Self)
        ensures
            dialog.wf(),
            dialog.purpose == Purpose::PickFolder,
            dialog.title@ == title@,
            dialog.hint@ == hint@,
            dialog.filters@.len() == 1,
            dialog.filters@[0].label@ == "文件夹"@,
            dialog.filters@[0].exts@.len() == 0,
            dialog.filter_idx == 0,
            dialog.dir == dir,
            dialog.entries == entries,
            dialog.parent is Some <==> parent is Some,
            parent is Some ==> (dialog.parent->0).path == parent->0,
            dialog.path_input@ == dir@,
            dialog.query@.len() == 0,
            !dialog.show_hidden,
            dialog.selected is None,
            dialog.file_name@.len() == 0,
            dialog.error is None,
            dialog.overwrite is None,
    {
        proof {
            reveal_strlit("");
        }
        let none: Vec<&'static str> = Vec::new();
        let mut filters: Vec<Filter> = Vec::new();
        let folders = Filter::new("文件夹", &none);
        assert(folders.exts@.len() == texts(folders.exts@).len());
        filters.push(folders);
        FileDialog::new(Purpose::PickFolder, title, hint, dir, entries, parent, "", filters)
    }

    /// A dialog to save a file under a name that is suggested.
    pub fn save(
        title: &str,
        hint: &str,
        dir: String,
        entries: Vec<Entry>,
        parent: Option<String>,
        default_name: &str,
        filters: Vec<Filter>,
    ) -> (dialog: Self)
        requires
            filters@.len() > 0,
        ensures
            dialog.wf(),
            dialog.purpose == Purpose::Save,
            dialog.title@ == title@,
            dialog.hint@ == hint@,
            dialog.filters == filters,
            dialog.filter_idx == 0,
            dialog.dir == dir,
            dialog.entries == entries,
            dialog.parent is Some <==> parent is Some,
            parent is Some ==> (dialog.parent->0).path == parent->0,
            dialog.path_input@ == dir@,
            dialog.query@.len() == 0,
            !dialog.show_hidden,
            dialog.selected is None,
            dialog.file_name@ == default_name@,
            dialog.error is None,
            dialog.overwrite is None,
    {
        FileDialog::new(Purpose::Save, title, hint, dir, entries, parent, default_name, filters)
    }

    /// A directory was listed, or could not be. Only then is it gone to.
    pub fn entered(&mut self, dir: String, listing: Result<Vec<Entry>, String>, parent: Option<String>)
        ensures
            final(self).purpose == old(self).purpose,
            final(self).title == old(self).title,
            final(self).hint == old(self).hint,
            final(self).filters == old(self).filters,
            final(self).filter_idx == old(self).filter_idx,
            final(self).show_hidden == old(self).show_hidden,
            final(self).file_name == old(self).file_name,
            match listing {
                Ok(entries) => {
                    &&& final(self).dir == dir
                    &&& final(self).path_input@ == dir@
                    &&& final(self).entries == entries
                    &&& final(self).parent is Some <==> parent is Some
                    &&& parent is Some ==> {
                        let above = final(self).parent->0;
                        above.name@ == ".."@ && above.path == parent->0 && above.is_dir
                            && above.size == 0
                    }
                    &&& final(self).selected is None
                    &&& final(self).query@.len() == 0
                    &&& final(self).overwrite is None
                    &&& final(self).error is None
                },
                Err(message) => {
                    &&& final(self).same_listing(old(self))
                    &&& final(self).selected == old(self).selected
                    &&& final(self).overwrite == old(self).overwrite
                    &&& final(self).error == Some(message)
                },
            },
    {
        match listing {
            Ok(entries) => {
                self.path_input = dir.clone();
                self.dir = dir;
                self.entries = entries;
                self.parent = parent_entry(parent);
                self.selected = None;
                self.query = String::new();
                self.overwrite = None;
                self.error = None;
            },
            Err(message) => {
                self.error = Some(message);
            },
        }
    }

    /// The directory was listed again. What is selected stays so where it is
    /// still there.
    pub fn refreshed(&mut self, listing: Result<Vec<Entry>, String>)
        ensures
            match listing {
                Ok(entries) => {
                    &&& final(self).entries == entries
                    &&& final(self).error is None
                    &&& final(self).selected == if old(self).selected is Some && entry_from(
                        entries@,
                        (old(self).selected->0)@,
                        0,
                    ) is Some {
                        old(self).selected
                    } else {
                        None
                    }
                },
                Err(message) => {
                    &&& final(self).entries == old(self).entries
                    &&& final(self).error == Some(message)
                    &&& final(self).selected == old(self).selected
                },
            },
            final(self).purpose == old(self).purpose,
            final(self).title == old(self).title,
            final(self).hint == old(self).hint,
            final(self).filters == old(self).filters,
            final(self).filter_idx == old(self).filter_idx,
            final(self).dir == old(self).dir,
            final(self).parent == old(self).parent,
            final(self).path_input == old(self).path_input,
            final(self).query == old(self).query,
            final(self).show_hidden == old(self).show_hidden,
            final(self).file_name == old(self).file_name,
            final(self).overwrite == old(self).overwrite,
    {
        match listing {
            Ok(entries) => {
                let keep = match &self.selected {
                    Some(path) => holds_path(&entries, path.as_str()),
                    None => false,
                };
                self.entries = entries;
                self.error = None;
                if !keep {
                    self.selected = None;
                }
            },
            Err(message) => {
                self.error = Some(message);
            },
        }
    }

    /// A row was clicked on.
    pub fn select(&mut self, path: String)
        ensures
            final(self).same_listing(old(self)),
            final(self).selected == Some(path),
            final(self).file_name == old(self).file_name,
            final(self).overwrite is None,
            final(self).error is None,
    {
        self.selected = Some(path);
        self.overwrite = None;
        self.error = None;
    }

    /// The name of the file that is saved was edited: it has to be confirmed anew
    /// that a file is overwritten.
    pub fn name_edited(&mut self)
        ensures
            *final(self) == (FileDialog { overwrite: None, error: None, ..*old(self) }),
    {
        self.overwrite = None;
        self.error = None;
    }

    /// Hidden entries were switched on or off: it has to be confirmed anew that a
    /// file is overwritten.
    pub fn hidden_toggled(&mut self)
        ensures
            *final(self) == (FileDialog { overwrite: None, error: None, ..*old(self) }),
    {
        self.overwrite = None;
        self.error = None;
    }

    /// Another filter was chosen.
    pub fn choose_filter(&mut self, index: usize)
        requires
            old(self).wf(),
            index < old(self).filters@.len(),
        ensures
            final(self).wf(),
            *final(self) == if index == old(self).filter_idx {
                *old(self)
            } else {
                FileDialog {
                    filter_idx: index,
                    selected: None,
                    overwrite: None,
                    error: None,
                    ..*old(self)
                }
            },
    {
        if index != self.filter_idx {
            self.filter_idx = index;
            self.selected = None;
            self.overwrite = None;
            self.error = None;
        }
    }

    /// The user named a file, by a double click or by its path. Where a file is
    /// saved, its directory is gone to and its name is taken over.
    pub fn take_file(&mut self, path: String, parent: Option<&str>, name: Option<&str>) -> (step: Step)
        ensures
            final(self).same_listing(old(self)),
            final(self).selected is Some,
            (final(self).selected->0)@ == path@,
            final(self).overwrite is None,
            final(self).error is None,
            final(self).file_name@ == if old(self).purpose == Purpose::Save && name is Some {
                name->0@
            } else {
                old(self).file_name@
            },
            match old(self).purpose {
                Purpose::Open => step matches Step::Pick(p) && p@ == path@,
                Purpose::PickFolder => step is Stay,
                Purpose::Save => if parent is Some && parent->0@ != old(self).dir@ {
                    step matches Step::Enter(p) && p@ == parent->0@
                } else {
                    step is Stay
                },
            },
    {
        self.selected = Some(path.clone());
        self.overwrite = None;
        self.error = None;
        match self.purpose {
            Purpose::Open => Step::Pick(path),
            Purpose::PickFolder => Step::Stay,
            Purpose::Save => {
                if let Some(name) = name {
                    self.file_name = name.to_owned();
                }
                match parent {
                    Some(parent) => if same(parent, self.dir.as_str()) {
                        Step::Stay
                    } else {
                        Step::Enter(parent.to_owned())
                    },
                    None => Step::Stay,
                }
            },
        }
    }

    /// The button that confirms was pressed, where nothing is saved: a folder
    /// that is selected is gone to or picked, a file is picked.
    pub fn confirm(&mut self) -> (step: Step)
        requires
            old(self).purpose != Purpose::Save,
        ensures
            final(self).same_listing(old(self)),
            final(self).selected == old(self).selected,
            final(self).file_name == old(self).file_name,
            final(self).overwrite == old(self).overwrite,
            ({
                let missing = old(self).purpose == Purpose::Open && old(self).selection() is None;
                if missing {
                    option_text(final(self).error) == Some("请先选择一个文件"@)
                } else {
                    final(self).error == old(self).error
                }
            }),
            match old(self).purpose {
                Purpose::PickFolder => step matches Step::Pick(p) && p@ == (
                match old(self).selection() {
                    Some((path, true)) => path,
                    _ => old(self).dir@,
                }),
                _ => match old(self).selection() {
                    Some((path, true)) => step matches Step::Enter(p) && p@ == path,
                    Some((path, false)) => step matches Step::Pick(p) && p@ == path,
                    None => step is Stay,
                },
            },
    {
        match self.purpose {
            Purpose::PickFolder => match self.selected_entry() {
                Some((path, true)) => Step::Pick(path),
                _ => Step::Pick(self.dir.clone()),
            },
            _ => match self.selected_entry() {
                Some((path, true)) => Step::Enter(path),
                Some((path, false)) => Step::Pick(path),
                None => {
                    self.error = Some("请先选择一个文件".to_owned());
                    Step::Stay
                },
            },
        }
    }

    /// The name under which a file is saved: with the first extension of the
    /// filter where it has none of its own.
    pub fn saved_name(&self, name: &str) -> (s: String)
        requires
            self.wf(),
        ensures
            s@ == ({
                let exts = self.filters@[self.filter_idx as int].exts@;
                if exts.len() == 0 {
                    name@
                } else {
                    with_extension(name@, exts[0]@)
                }
            }),
    {
        let exts = &self.filters[self.filter_idx].exts;
        if exts.len() == 0 {
            name.to_owned()
        } else {
            ensure_extension(name, exts[0].as_str())
        }
    }

    /// The name that was entered; without one there is an error.
    pub fn entered_name(&mut self) -> (r: Option<String>)
        ensures
            final(self).same_listing(old(self)),
            final(self).selected == old(self).selected,
            final(self).file_name == old(self).file_name,
            final(self).overwrite == old(self).overwrite,
            if trimmed(old(self).file_name@).len() == 0 {
                r is None && option_text(final(self).error) == Some("请输入文件名"@)
            } else {
                option_text(r) == Some(trimmed(old(self).file_name@)) && final(self).error == old(
                    self,
                ).error
            },
    {
        let raw = trim(self.file_name.as_str());
        if raw.as_str().is_empty() {
            self.error = Some("请输入文件名".to_owned());
            return None;
        }
        Some(raw)
    }

    /// A file is saved, given what is known of its path. One that exists is
    /// overwritten only when that is confirmed a second time.
    pub fn confirm_save(
        &mut self,
        target: String,
        is_dir: bool,
        parent: &str,
        parent_is_dir: bool,
        exists: bool,
    ) -> (step: Step)
        ensures
            final(self).same_listing(old(self)),
            final(self).selected == old(self).selected,
            final(self).file_name == old(self).file_name,
            if is_dir {
                &&& step is Stay
                &&& option_text(final(self).error) == Some(
                    "该路径是一个文件夹,请输入文件名"@,
                )
                &&& final(self).overwrite == old(self).overwrite
            } else if !parent_is_dir {
                &&& step is Stay
                &&& option_text(final(self).error) == Some("文件夹不存在: "@ + parent@)
                &&& final(self).overwrite == old(self).overwrite
            } else if exists && option_text(old(self).overwrite) != Some(target@) {
                &&& step is Stay
                &&& final(self).error is None
                &&& option_text(final(self).overwrite) == Some(target@)
            } else {
                &&& step matches Step::Pick(p)
                &&& p@ == target@
                &&& final(self).error == old(self).error
                &&& final(self).overwrite == old(self).overwrite
            },
            step is Pick ==> !is_dir && parent_is_dir,
            step is Pick && exists ==> old(self).overwrite is Some && (old(self).overwrite->0)@
                == target@,
            step is Pick || step is Stay,
    {
        if is_dir {
            self.error = Some("该路径是一个文件夹,请输入文件名".to_owned());
            return Step::Stay;
        }
        if !parent_is_dir {
            self.error = Some("文件夹不存在: ".to_owned().concat(parent));
            return Step::Stay;
        }
        let confirmed = match &self.overwrite {
            Some(path) => same(path.as_str(), target.as_str()),
            None => false,
        };
        if exists && !confirmed {
            self.error = None;
            self.overwrite = Some(target);
            return Step::Stay;
        }
        Step::Pick(target)
    }

    /// A path was entered that names neither a directory nor a file. A file
    /// that is saved may be new: then its directory is gone to.
    pub fn missing_path(
        &mut self,
        path: &str,
        parent: Option<&str>,
        parent_is_dir: bool,
        name: Option<&str>,
    ) -> (step: Step)
        ensures
            final(self).same_listing(old(self)),
            final(self).selected == old(self).selected,
            final(self).overwrite == old(self).overwrite,
            if old(self).purpose == Purpose::Save && parent is Some && parent_is_dir && name is Some {
                &&& step matches Step::Enter(p)
                &&& p@ == parent->0@
                &&& final(self).file_name@ == name->0@
                &&& final(self).error == old(self).error
            } else {
                &&& step is Stay
                &&& final(self).file_name == old(self).file_name
                &&& option_text(final(self).error) == Some(
                    if old(self).purpose == Purpose::PickFolder {
                        "请选择一个文件夹"@
                    } else {
                        "路径不存在: "@ + path@
                    },
                )
            },
    {
        match self.purpose {
            Purpose::Save => {
                if let Some(parent) = parent {
                    if parent_is_dir {
                        if let Some(name) = name {
                            self.file_name = name.to_owned();
                            return Step::Enter(parent.to_owned());
                        }
                    }
                }
                self.error = Some("路径不存在: ".to_owned().concat(path));
                Step::Stay
            },
            Purpose::PickFolder => {
                self.error = Some("请选择一个文件夹".to_owned());
                Step::Stay
            },
            Purpose::Open => {
                self.error = Some("路径不存在: ".to_owned().concat(path));
                Step::Stay
            },
        }
    }

    /// The label of the button that confirms.
    pub fn confirm_label(&self) -> (s: &'static str)
        ensures
            s@ == match self.purpose {
                Purpose::Save => if self.overwrite is Some {
                    "覆盖保存"@
                } else {
                    "保存"@
                },
                Purpose::PickFolder => "选择此文件夹"@,
                Purpose::Open => "打开"@,
            },
    {
        match self.purpose {
            Purpose::Save => if self.overwrite.is_some() {
                "覆盖保存"
            } else {
                "保存"
            },
            Purpose::PickFolder => "选择此文件夹",
            Purpose::Open => "打开",
        }
    }

    /// Whether the button that confirms can be pressed.
    pub fn can_confirm(&self) -> (r: bool)
        ensures
            r == (self.purpose != Purpose::Open || self.selected is Some),
    {
        match self.purpose {
            Purpose::Open => self.selected.is_some(),
            _ => true,
        }
    }

    /// What is said of the selection. `selected_name` is the file name of the
    /// path that is selected, and `rows` are those that are listed.
    pub fn tip(&self, selected_name: &str, rows: &Vec<usize>) -> (s: String)
        ensures
            s@ == if self.purpose == Purpose::PickFolder {
                match self.selection() {
                    Some((_, true)) => "已选择:"@ + selected_name@,
                    _ => "将导入当前文件夹:"@ + self.dir@,
                }
            } else {
                match self.selection() {
                    Some((_, false)) => "已选择:"@ + selected_name@,
                    Some((_, true)) => "已选择文件夹,点「打开」进入"@,
                    None => "共 "@ + decimal(entry_count(rows@)) + " 个项目"@,
                }
            },
    {
        let selected = self.selected_entry();
        match self.purpose {
            Purpose::PickFolder => match selected {
                Some((_, true)) => "已选择:".to_owned().concat(selected_name),
                _ => "将导入当前文件夹:".to_owned().concat(self.dir.as_str()),
            },
            _ => match selected {
                Some((_, false)) => "已选择:".to_owned().concat(selected_name),
                Some((_, true)) => "已选择文件夹,点「打开」进入".to_owned(),
                None => {
                    let count = decimal_of(count_entries(rows) as u64);
                    "共 ".to_owned().concat(count.as_str()).concat(" 个项目")
                },
            },
        }
    }
}

/// Number of rows but for that of the directory above.
pub open spec fn entry_count(rows: Seq<usize>) -> nat
    decreases rows.len(),
{
    if rows.len() == 0 {
        0
    } else {
        entry_count(rows.drop_last()) + if rows.last() == PARENT_ROW {
            0nat
        } else {
            1
        }
    }
}

fn count_entries(rows: &Vec<usize>) -> (n: usize)
    ensures
        n == entry_count(rows@),
{
    let mut n: usize = 0;
    let mut i: usize = 0;
    assert(rows@.take(0) =~= Seq::empty());
    while i < rows.len()
        invariant
            n <= i <= rows@.len(),
            n == entry_count(rows@.take(i as int)),
        decreases rows@.len() - i,
    {
        assert(rows@.take(i + 1).drop_last() =~= rows@.take(i as int));
        if rows[i] != PARENT_ROW {
            n += 1;
        }
        i += 1;
    }
    assert(rows@.take(i as int) =~= rows@);
    n
}

fn holds_path(entries: &Vec<Entry>, path: &str) -> (r: bool)
    ensures
        r == (entry_from(entries@, path@, 0) is Some),
{
    let mut i: usize = 0;
    while i < entries.len()
        invariant
            i <= entries@.len(),
            entry_from(entries@, path@, i as int) == entry_from(entries@, path@, 0),
        decreases entries@.len() - i,
    {
        if same(entries[i].path.as_str(), path) {
            return true;
        }
        i += 1;
    }
    false
}

} // verus!
