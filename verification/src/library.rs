//! The page with the documents of the library: which of them are listed, how
//! an import goes on, and what is asked before something is removed.

use vstd::prelude::*;
use vstd::string::StringExecFns;

use crate::filebrowser::unicode_lower;
use crate::import::{size_stored, stored_size, FileOutcome, ImportEvent};
use crate::paths::option_text;
use crate::preview::next_generation;
use crate::query::Scope;
use crate::repo::{DocumentRow, FolderGroup, ImportCounts};
use crate::search::{index_views, Filters, SearchRequest, DEFAULT_MAX_FRAGMENTS};
use crate::text::{chars_of, contains, contains_chars, decimal, decimal_of, texts, trim, trimmed};

verus! {

/// A page of the program.
#[derive(Debug, Clone, Copy, PartialEq, Eq, Structural)]
pub enum Page {
    /// Importing and listing documents.
    Library,
    /// Searching, with a preview.
    Search,
    /// Where data are kept, and upkeep of the index.
    Settings,
}

impl Page {
    /// The title of the page.
    pub fn title(self) -> (s: &'static str)
        ensures
            s@ == match self {
                Page::Library => "资料库"@,
                Page::Search => "搜索"@,
                Page::Settings => "设置"@,
            },
    {
        match self {
            Page::Library => "资料库",
            Page::Search => "搜索",
            Page::Settings => "设置",
        }
    }

    /// What the page is for.
    pub fn description(self) -> (s: &'static str)
        ensures
            s@ == match self {
                Page::Library => "把文档放进资料库,之后即可全文检索。"@,
                Page::Search => "输入关键词,在全部已索引文档中查找。"@,
                Page::Settings => "查看数据位置,维护索引文件。"@,
            },
    {
        match self {
            Page::Library => "把文档放进资料库,之后即可全文检索。",
            Page::Search => "输入关键词,在全部已索引文档中查找。",
            Page::Settings => "查看数据位置,维护索引文件。",
        }
    }
}

/// The file name has the words of the filter, which are in lower case.
pub open spec fn passes(file_name: Seq<char>, filter: Seq<char>) -> bool {
    filter.len() == 0 || contains(unicode_lower(file_name), filter)
}

/// Whether a file name has the words of a filter in lower case; an empty filter
/// lets all pass.
pub fn file_name_matches(file_name: &str, filter: &str) -> (r: bool)
    ensures
        r == passes(file_name@, filter@),
{
    if filter.is_empty() {
        return true;
    }
    let small = file_name.to_lowercase();
    contains_chars(&chars_of(small.as_str()), &chars_of(filter))
}

/// Number of documents that pass a filter.
pub open spec fn passing(documents: Seq<DocumentRow>, filter: Seq<char>) -> nat
    decreases documents.len(),
{
    if documents.len() == 0 {
        0
    } else {
        passing(documents.drop_last(), filter) + if passes(documents.last().file_name@, filter) {
            1nat
        } else {
            0
        }
    }
}

impl FolderGroup {
    /// Number of documents of the folder that pass a filter.
    pub fn matched(&self, filter: &str) -> (n: usize)
        ensures
            n == passing(self.documents@, filter@),
            n <= self.documents@.len(),
    {
        let mut n: usize = 0;
        let mut i: usize = 0;
        assert(self.documents@.take(0) =~= Seq::empty());
        while i < self.documents.len()
            invariant
                n <= i <= self.documents@.len(),
                n == passing(self.documents@.take(i as int), filter@),
            decreases self.documents@.len() - i,
        {
            assert(self.documents@.take(i + 1).drop_last() =~= self.documents@.take(i as int));
            if file_name_matches(self.documents[i].file_name.as_str(), filter) {
                n += 1;
            }
            i += 1;
        }
        assert(self.documents@.take(i as int) =~= self.documents@);
        n
    }
}

/// Those of the first `n` folders that have a document which passes; without a
/// filter all of them.
pub open spec fn open_folders(groups: Seq<FolderGroup>, filter: Seq<char>, n: int) -> Seq<int>
    decreases n,
{
    if n <= 0 {
        Seq::empty()
    } else if filter.len() == 0 || passing(groups[n - 1].documents@, filter) > 0 {
        open_folders(groups, filter, n - 1).push(n - 1)
    } else {
        open_folders(groups, filter, n - 1)
    }
}

/// The indices of the folders that are listed: a folder without any document
/// that passes the filter is left out.
pub fn visible_folders(groups: &Vec<FolderGroup>, filter: &str) -> (r: Vec<usize>)
    ensures
        index_views(r@) == open_folders(groups@, filter@, groups@.len() as int),
{
    let mut r: Vec<usize> = Vec::new();
    let mut i: usize = 0;
    assert(index_views(r@) =~= Seq::empty());
    while i < groups.len()
        invariant
            i <= groups@.len(),
            index_views(r@) == open_folders(groups@, filter@, i as int),
        decreases groups@.len() - i,
    {
        if filter.is_empty() || groups[i].matched(filter) > 0 {
            let ghost before = index_views(r@);
            r.push(i);
            assert(index_views(r@) =~= before.push(i as int));
        }
        i += 1;
    }
    r
}

/// Those of the first `n` documents that were added by themselves and pass a
/// filter.
pub open spec fn standalone(documents: Seq<DocumentRow>, filter: Seq<char>, n: int) -> Seq<int>
    decreases n,
{
    if n <= 0 {
        Seq::empty()
    } else if documents[n - 1].source_root is None && passes(
        documents[n - 1].file_name@,
        filter,
    ) {
        standalone(documents, filter, n - 1).push(n - 1)
    } else {
        standalone(documents, filter, n - 1)
    }
}

/// The indices of the documents that were added by themselves, not with a
/// folder, and pass a filter.
pub fn standalone_document_indices(documents: &Vec<DocumentRow>, filter: &str) -> (r: Vec<usize>)
    ensures
        index_views(r@) == standalone(documents@, filter@, documents@.len() as int),
{
    let mut r: Vec<usize> = Vec::new();
    let mut i: usize = 0;
    assert(index_views(r@) =~= Seq::empty());
    while i < documents.len()
        invariant
            i <= documents@.len(),
            index_views(r@) == standalone(documents@, filter@, i as int),
        decreases documents@.len() - i,
    {
        if documents[i].source_root.is_none() && file_name_matches(
            documents[i].file_name.as_str(),
            filter,
        ) {
            let ghost before = index_views(r@);
            r.push(i);
            assert(index_views(r@) =~= before.push(i as int));
        }
        i += 1;
    }
    r
}

/// A document is listed among those added by themselves exactly when it was,
/// and passes the filter.
pub proof fn law_standalone_documents(
    documents: Seq<DocumentRow>,
    filter: Seq<char>,
    n: int,
    i: int,
)
    requires
        0 <= i < n <= documents.len(),
    ensures
        standalone(documents, filter, n).contains(i) <==> documents[i].source_root is None
            && passes(documents[i].file_name@, filter),
    decreases n,
{
    let after = standalone(documents, filter, n);
    let before = standalone(documents, filter, n - 1);
    lemma_standalone_below(documents, filter, n - 1);
    if i < n - 1 {
        law_standalone_documents(documents, filter, n - 1, i);
        if before.contains(i) {
            let k = choose|k: int| 0 <= k < before.len() && before[k] == i;
            assert(after[k] == i);
        }
        if after.contains(i) {
            let k = choose|k: int| 0 <= k < after.len() && after[k] == i;
            if k < before.len() {
                assert(before[k] == i);
            }
        }
    } else {
        if after.len() > before.len() {
            assert(after[before.len() as int] == i);
        } else if after.contains(i) {
            let k = choose|k: int| 0 <= k < after.len() && after[k] == i;
            assert(before[k] == i);
        }
    }
}

proof fn lemma_standalone_below(documents: Seq<DocumentRow>, filter: Seq<char>, n: int)
    ensures
        forall|k: int|
            0 <= k < standalone(documents, filter, n).len() ==> 0 <= #[trigger] standalone(
                documents,
                filter,
                n,
            )[k] < n,
    decreases n,
{
    if n > 0 {
        lemma_standalone_below(documents, filter, n - 1);
        let before = standalone(documents, filter, n - 1);
        let after = standalone(documents, filter, n);
        assert forall|k: int| 0 <= k < after.len() implies 0 <= #[trigger] after[k] < n by {
            if k < before.len() {
                assert(after[k] == before[k]);
            }
        }
    }
}

/// Most failures that are kept while an import goes on.
pub const MAX_RECENT_FAILURES: usize = 20;

/// How far an import has come.
#[derive(Debug)]
pub struct ImportProgress {
    pub counts: ImportCounts,
    /// The file that was done last.
    pub current_path: Option<String>,
    /// The last failures: file names and messages.
    pub recent_failures: Vec<(String, String)>,
    pub cancelled: bool,
}

impl Default for ImportProgress {
    fn default() -> (p: Self)
        ensures
            p.counts == (ImportCounts { total: 0, processed: 0, ok: 0, failed: 0, skipped: 0 }),
            p.current_path is None,
            p.recent_failures@.len() == 0,
            !p.cancelled,
    {
        ImportProgress {
            counts: ImportCounts::default(),
            current_path: None,
            recent_failures: Vec::new(),
            cancelled: false,
        }
    }
}

/// Pairs of texts.
pub open spec fn pair_texts(v: Seq<(String, String)>) -> Seq<(Seq<char>, Seq<char>)> {
    v.map_values(|p: (String, String)| (p.0@, p.1@))
}

/// The last of these entries, as many as are kept.
pub open spec fn last_failures(v: Seq<(Seq<char>, Seq<char>)>) -> Seq<(Seq<char>, Seq<char>)> {
    if v.len() > MAX_RECENT_FAILURES {
        v.skip(v.len() - MAX_RECENT_FAILURES)
    } else {
        v
    }
}

/// What is said of an import that has ended.
pub open spec fn ending_notice(counts: ImportCounts, cancelled: bool) -> Seq<char> {
    if cancelled {
        "导入已取消:处理 "@ + decimal(counts.processed as nat) + "/"@ + decimal(counts.total as nat)
            + " 个文件"@
    } else {
        "导入完成:成功 "@ + decimal(counts.ok as nat) + "、失败 "@ + decimal(counts.failed as nat)
            + "、跳过 "@ + decimal(counts.skipped as nat) + "(共 "@ + decimal(counts.total as nat)
            + ")"@
    }
}

/// What is said of an import that has ended.
pub fn import_notice(counts: &ImportCounts, cancelled: bool) -> (s: String)
    ensures
        s@ == ending_notice(*counts, cancelled),
{
    let total = decimal_of(counts.total as u64);
    if cancelled {
        let processed = decimal_of(counts.processed as u64);
        let mut s = "导入已取消:处理 ".to_owned();
        s.append(processed.as_str());
        s.append("/");
        s.append(total.as_str());
        s.append(" 个文件");
        s
    } else {
        let ok = decimal_of(counts.ok as u64);
        let failed = decimal_of(counts.failed as u64);
        let skipped = decimal_of(counts.skipped as u64);
        let mut s = "导入完成:成功 ".to_owned();
        s.append(ok.as_str());
        s.append("、失败 ");
        s.append(failed.as_str());
        s.append("、跳过 ");
        s.append(skipped.as_str());
        s.append("(共 ");
        s.append(total.as_str());
        s.append(")");
        s
    }
}

impl ImportProgress {
    /// Takes in what an import tells. Gives what is to be said once it has
    /// ended. `name` is the file name of the file that was done.
    pub fn take_event(&mut self, event: ImportEvent, name: &str) -> (notice: Option<String>)
        ensures
            match event {
                ImportEvent::Scanned { total } => {
                    &&& notice is None
                    &&& final(self).counts == (ImportCounts { total, ..old(self).counts })
                    &&& final(self).current_path == old(self).current_path
                    &&& final(self).recent_failures == old(self).recent_failures
                    &&& final(self).cancelled == old(self).cancelled
                },
                ImportEvent::FileDone { path, outcome, counts } => {
                    &&& notice is None
                    &&& final(self).counts == counts
                    &&& final(self).current_path == Some(path)
                    &&& final(self).cancelled == old(self).cancelled
                    &&& match outcome {
                        FileOutcome::Failed { message, .. } => pair_texts(
                            final(self).recent_failures@,
                        ) == last_failures(
                            pair_texts(old(self).recent_failures@).push((name@, message@)),
                        ),
                        _ => final(self).recent_failures == old(self).recent_failures,
                    }
                },
                ImportEvent::Finished { counts, cancelled, .. } => {
                    &&& option_text(notice) == Some(ending_notice(counts, cancelled))
                    &&& final(self).counts == counts
                    &&& final(self).cancelled == cancelled
                    &&& final(self).current_path == old(self).current_path
                    &&& final(self).recent_failures == old(self).recent_failures
                },
            },
    {
        match event {
            ImportEvent::Scanned { total } => {
                self.counts.total = total;
                None
            },
            ImportEvent::FileDone { path, outcome, counts } => {
                self.counts = counts;
                self.current_path = Some(path);
                if let FileOutcome::Failed { message, .. } = outcome {
                    let ghost before = pair_texts(self.recent_failures@);
                    self.recent_failures.push((name.to_owned(), message));
                    let ghost all = pair_texts(self.recent_failures@);
                    assert(all =~= before.push((name@, message@)));
                    let ghost mut gone: int = 0;
                    assert(all.skip(0) =~= all);
                    while self.recent_failures.len() > MAX_RECENT_FAILURES
                        invariant
                            0 <= gone <= all.len(),
                            pair_texts(self.recent_failures@) == all.skip(gone),
                            gone > 0 ==> all.len() - gone >= MAX_RECENT_FAILURES,
                            self.counts == counts,
                            self.current_path == Some(path),
                            self.cancelled == old(self).cancelled,
                        decreases self.recent_failures@.len(),
                    {
                        let ghost list = self.recent_failures@;
                        assert(pair_texts(list).len() == list.len());
                        self.recent_failures.remove(0);
                        proof {
                            assert(pair_texts(self.recent_failures@) =~= pair_texts(
                                list,
                            ).drop_first());
                            assert(all.skip(gone).drop_first() =~= all.skip(gone + 1));
                            gone = gone + 1;
                        }
                    }
                    assert(pair_texts(self.recent_failures@).len() == self.recent_failures@.len());
                    assert(pair_texts(self.recent_failures@) =~= last_failures(all));
                }
                None
            },
            ImportEvent::Finished { counts, cancelled, .. } => {
                self.counts = counts;
                self.cancelled = cancelled;
                Some(import_notice(&counts, cancelled))
            },
        }
    }
}

/// Something that is removed only after the user has confirmed it.
#[derive(Debug)]
pub enum PendingConfirm {
    RemoveDocument { id: i64, label: String },
    RemoveFolder { root: String, doc_count: usize },
}

/// What the user is asked: a title, a question and the label of the button.
pub struct Question {
    pub title: &'static str,
    pub body: String,
    pub confirm_label: String,
}

/// What the user is asked before something is removed.
pub fn question_of(pending: &PendingConfirm) -> (q: Question)
    ensures
        match *pending {
            PendingConfirm::RemoveDocument { label, .. } => {
                &&& q.title@ == "移除文档"@
                &&& q.body@ == "确定要从索引里移除「"@ + label@
                    + "」吗?\n\n只删除本程序建的索引记录,磁盘上的原文件不会被删除。"@
                &&& q.confirm_label@ == "确认移除"@
            },
            PendingConfirm::RemoveFolder { root, doc_count } => {
                &&& q.title@ == "移除文件夹"@
                &&& q.body@ == "确定要移除这个文件夹及其下 "@ + decimal(doc_count as nat)
                    + " 篇文档的索引吗?\n\n"@ + root@ + "\n\n"@
                    + "只删除本程序建的索引记录,磁盘上的文件与文件夹都不会被删除。"@
                &&& q.confirm_label@ == "确认移除("@ + decimal(doc_count as nat) + " 篇)"@
            },
        },
{
    match pending {
        PendingConfirm::RemoveDocument { label, .. } => Question {
            title: "移除文档",
            body: "确定要从索引里移除「".to_owned().concat(label.as_str()).concat(
                "」吗?\n\n只删除本程序建的索引记录,磁盘上的原文件不会被删除。",
            ),
            confirm_label: "确认移除".to_owned(),
        },
        PendingConfirm::RemoveFolder { root, doc_count } => {
            let count = decimal_of(*doc_count as u64);
            let mut body = "确定要移除这个文件夹及其下 ".to_owned();
            body.append(count.as_str());
            body.append(" 篇文档的索引吗?\n\n");
            body.append(root.as_str());
            body.append("\n\n");
            body.append("只删除本程序建的索引记录,磁盘上的文件与文件夹都不会被删除。");
            Question {
                title: "移除文件夹",
                body,
                confirm_label: "确认移除(".to_owned().concat(count.as_str()).concat(" 篇)"),
            }
        },
    }
}

/// What becomes of something that was to be removed.
#[derive(Debug, Clone, Copy, PartialEq, Eq, Structural)]
pub enum ConfirmStep {
    /// It is removed.
    Remove,
    /// It stays, and the question goes away.
    Drop,
    /// The question stays.
    Wait,
}

/// What becomes of something that was to be removed. Nothing is removed while
/// the index is being written.
pub fn confirm_step(confirm: bool, cancel: bool, busy: bool) -> (step: ConfirmStep)
    ensures
        step == if confirm && !busy {
            ConfirmStep::Remove
        } else if cancel {
            ConfirmStep::Drop
        } else {
            ConfirmStep::Wait
        },
        step == ConfirmStep::Remove ==> confirm && !busy,
        busy && !cancel ==> step == ConfirmStep::Wait,
{
    if confirm && !busy {
        ConfirmStep::Remove
    } else if cancel {
        ConfirmStep::Drop
    } else {
        ConfirmStep::Wait
    }
}

/// What is shown in place of the list of documents added by themselves.
pub fn files_note(
    total: usize,
    standalone: usize,
    loading: bool,
    ready: bool,
    importing: bool,
) -> (r: Option<&'static str>)
    ensures
        match r {
            Some(s) => {
                ||| total == 0 && loading && s@ == "正在读取文档列表…"@
                ||| !(total == 0 && loading) && ready && !importing && !loading && total == 0 && s@
                    == "资料库为空,点「添加文件」或「添加文件夹」开始导入。"@
                ||| ready && !importing && !loading && total > 0 && standalone == 0 && s@
                    == "没有单独添加的文件。用「添加文件」直接加进来的文档会出现在这里。"@
            },
            None => !(total == 0 && loading) && !(ready && !importing && !loading && (total == 0
                || standalone == 0)),
        },
{
    if total == 0 && loading {
        return Some("正在读取文档列表…");
    }
    if ready && !importing && !loading && (total == 0 || standalone == 0) {
        return Some(
            if total == 0 {
                "资料库为空,点「添加文件」或「添加文件夹」开始导入。"
            } else {
                "没有单独添加的文件。用「添加文件」直接加进来的文档会出现在这里。"
            },
        );
    }
    None
}

/// The time so many days ago, no earlier than the earliest there is.
pub open spec fn days_ago(now_ms: i64, days: u64) -> int {
    let span = if days * 86_400_000 <= u64::MAX {
        size_stored((days * 86_400_000) as u64)
    } else {
        size_stored(u64::MAX)
    };
    if now_ms - span < i64::MIN {
        i64::MIN as int
    } else if now_ms - span > i64::MAX {
        i64::MAX as int
    } else {
        now_ms - span
    }
}

fn time_ago(now_ms: i64, days: u64) -> (t: i64)
    ensures
        t == days_ago(now_ms, days),
{
    let span: u64 = if days <= u64::MAX / 86_400_000 {
        days * 86_400_000
    } else {
        u64::MAX
    };
    assert(span == if days * 86_400_000 <= u64::MAX {
        (days * 86_400_000) as u64
    } else {
        u64::MAX
    });
    let span = stored_size(span) as i128;
    let t = now_ms as i128 - span;
    if t < i64::MIN as i128 {
        i64::MIN
    } else if t > i64::MAX as i128 {
        i64::MAX
    } else {
        t as i64
    }
}

/// Makes a request of what was entered on the search page; `None` where no words
/// were.
pub fn search_request(
    query: &str,
    scope: Scope,
    exact: bool,
    file_types: Vec<String>,
    days: Option<u64>,
    now_ms: i64,
    path_prefix: &str,
) -> (r: Option<SearchRequest>)
    ensures
        r is None <==> trimmed(query@).len() == 0,
        r is Some ==> {
            let request = r->0;
            &&& request.query@ == trimmed(query@)
            &&& request.scope == scope
            &&& request.loose == !exact
            &&& request.filters.file_types == file_types
            &&& request.filters.mtime_from_ms is Some <==> days is Some
            &&& days is Some ==> request.filters.mtime_from_ms->0 == days_ago(now_ms, days->0)
            &&& request.filters.mtime_to_ms is None
            &&& option_text(request.filters.path_prefix) == if trimmed(path_prefix@).len() == 0 {
                None
            } else {
                Some(trimmed(path_prefix@))
            }
            &&& request.max_documents == 100
            &&& request.max_fragments_per_document == DEFAULT_MAX_FRAGMENTS
        },
{
    let query = trim(query);
    if query.as_str().is_empty() {
        return None;
    }
    let prefix = trim(path_prefix);
    let mtime_from_ms = match days {
        Some(days) => Some(time_ago(now_ms, days)),
        None => None,
    };
    Some(
        SearchRequest {
            query,
            scope,
            loose: !exact,
            filters: Filters {
                file_types,
                mtime_from_ms,
                mtime_to_ms: None,
                path_prefix: if prefix.as_str().is_empty() {
                    None
                } else {
                    Some(prefix)
                },
            },
            max_documents: 100,
            max_fragments_per_document: DEFAULT_MAX_FRAGMENTS,
        },
    )
}

/// One line about a search result; the time it took is given as text.
pub fn result_summary(
    groups: usize,
    locations: usize,
    total_groups: usize,
    total_documents: usize,
    elapsed: &str,
) -> (s: String)
    ensures
        s@ == "展示 "@ + decimal(groups as nat) + " 组结果，共 "@ + decimal(locations as nat)
            + " 个文件位置 · 耗时 "@ + elapsed@ + " ms"@ + (if total_documents > locations {
            "（FTS 候选 "@ + decimal(total_groups as nat) + " 组、"@ + decimal(
                total_documents as nat,
            ) + " 个位置，部分未展示或未通过精确匹配）"@
        } else {
            ""@
        }),
{
    let shown = decimal_of(groups as u64);
    let places = decimal_of(locations as u64);
    let mut s = "展示 ".to_owned();
    s.append(shown.as_str());
    s.append(" 组结果，共 ");
    s.append(places.as_str());
    s.append(" 个文件位置 · 耗时 ");
    s.append(elapsed);
    s.append(" ms");
    let rest = if total_documents > locations {
        let all_groups = decimal_of(total_groups as u64);
        let all_places = decimal_of(total_documents as u64);
        let mut t = "（FTS 候选 ".to_owned();
        t.append(all_groups.as_str());
        t.append(" 组、");
        t.append(all_places.as_str());
        t.append(" 个位置，部分未展示或未通过精确匹配）");
        t
    } else {
        "".to_owned()
    };
    s.append(rest.as_str());
    s
}

/// The list of documents is read in the background. Lists that were overtaken
/// by a removal are not shown, and what was asked for meanwhile is read again.
#[derive(Debug, Clone, Copy, PartialEq, Eq, Structural)]
pub struct ListRefresh {
    /// Tells lists that are out of date from the current one.
    pub generation: u64,
    /// The list that is being read.
    pub in_flight: Option<u64>,
    /// The list was asked for while another one was being read.
    pub pending: bool,
}

/// What becomes of a list that was read.
#[derive(Debug, Clone, Copy, PartialEq, Eq, Structural)]
pub struct Landing {
    /// The list is shown.
    pub show: bool,
    /// The list has to be read again.
    pub again: bool,
}

impl ListRefresh {
    pub fn new() -> (r: Self)
        ensures
            r == (ListRefresh { generation: 0, in_flight: None, pending: false }),
    {
        ListRefresh { generation: 0, in_flight: None, pending: false }
    }

    /// The list is asked for. Gives the number of the reading that is to begin;
    /// `None` where one is under way, after which there will be another.
    pub fn request(&mut self) -> (r: Option<u64>)
        ensures
            match old(self).in_flight {
                Some(_) => r is None && *final(self) == (ListRefresh { pending: true, ..*old(self) }),
                None => r == Some(next_generation(old(self).generation)) && *final(self) == (
                ListRefresh {
                    generation: next_generation(old(self).generation),
                    in_flight: r,
                    pending: old(self).pending,
                }),
            },
    {
        if self.in_flight.is_some() {
            self.pending = true;
            return None;
        }
        self.invalidate();
        self.in_flight = Some(self.generation);
        Some(self.generation)
    }

    /// The list changed, so that one that is being read is out of date.
    pub fn invalidate(&mut self)
        ensures
            *final(self) == (ListRefresh {
                generation: next_generation(old(self).generation),
                ..*old(self)
            }),
    {
        self.generation = if self.generation == u64::MAX {
            0
        } else {
            self.generation + 1
        };
    }

    /// A reading that was to begin could not be started.
    pub fn not_started(&mut self)
        ensures
            *final(self) == (ListRefresh { in_flight: None, ..*old(self) }),
    {
        self.in_flight = None;
    }

    /// A list was read.
    pub fn landed(&mut self, generation: u64) -> (r: Landing)
        ensures
            r.show == (generation == old(self).generation),
            r.again == (!r.show || old(self).pending),
            *final(self) == (ListRefresh {
                generation: old(self).generation,
                in_flight: None,
                pending: if r.again {
                    false
                } else {
                    old(self).pending
                },
            }),
    {
        self.in_flight = None;
        let show = generation == self.generation;
        let again = !show || self.pending;
        if again {
            self.pending = false;
        }
        Landing { show, again }
    }
}

/// Whether an import can begin: the index is open and not being written, and
/// there is something to import.
pub fn can_import(importing: bool, maintaining: bool, inputs: usize, ready: bool) -> (r: bool)
    ensures
        r == (!importing && !maintaining && inputs > 0 && ready),
{
    !importing && !maintaining && inputs > 0 && ready
}

} // verus!
