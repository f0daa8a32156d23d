use rsou::chunk::{chunk_document, Chunk};
use rsou::dict::{Dictionary, Segmenter, Synonyms};
use rsou::parse::FileType;
use rsou::query::{compile_with, QueryError, Scope};
use rsou::repo::DocumentRow;
use rsou::search::{
    bounds_in_order, examine, finish, plan_search, Filters, Gathering, Param, SearchRequest,
    SearchResponse,
};
use rsou::text::{Block, PlainText};
use rsou::tokenize::token_spans;
use rusqlite::types::Value;
use rusqlite::{params_from_iter, Connection};

/// The tokens of a text with spaces between them.
fn spaced(text: &str) -> String {
    let tokens: Vec<String> = token_spans(text).into_iter().map(|span| span.text).collect();
    tokens.join(" ")
}

/// A match expression for an index of spaced tokens.
fn spaced_expression(expression: &str) -> String {
    let parts: Vec<String> = expression
        .split('"')
        .enumerate()
        .map(|(i, part)| if i % 2 == 1 { spaced(part) } else { part.to_owned() })
        .collect();
    parts.join("\"")
}

fn index_row(conn: &Connection, id: i64, title: &str, content: &str) {
    conn.execute(
        "INSERT INTO documents_fts(rowid, title, content) VALUES (?1, ?2, ?3)",
        (id, spaced(title), spaced(content)),
    )
    .unwrap();
}

fn open_in_memory() -> Connection {
    let connection = Connection::open_in_memory().unwrap();
    connection
        .execute_batch(
            "CREATE TABLE documents(id INTEGER PRIMARY KEY, path TEXT, title TEXT, file_type TEXT,
                file_mtime_ms INTEGER, content_hash TEXT);
             CREATE TABLE document_contents(document_id INTEGER PRIMARY KEY, plain_text TEXT);
             CREATE TABLE chunks(document_id INTEGER, chunk_index INTEGER, start_offset INTEGER,
                end_offset INTEGER, context_header TEXT);
             CREATE VIRTUAL TABLE documents_fts USING fts5(title, content, content = '',
                contentless_delete = 1, tokenize = 'unicode61');",
        )
        .unwrap();
    connection
}

fn save(
    conn: &Connection,
    path: &str,
    file_type: FileType,
    title: &str,
    hash: &str,
    plain: &PlainText,
    chunks: &[Chunk],
) -> i64 {
    conn.execute(
        "INSERT INTO documents(path, title, file_type, file_mtime_ms, content_hash)
         VALUES (?1, ?2, ?3, 1000, ?4)",
        [path, title, file_type.as_str(), hash],
    )
    .unwrap();
    let id = conn.last_insert_rowid();
    conn.execute("INSERT INTO document_contents VALUES (?1, ?2)", (id, &plain.text)).unwrap();
    index_row(conn, id, title, &plain.text);
    for chunk in chunks {
        conn.execute(
            "INSERT INTO chunks VALUES (?1, ?2, ?3, ?4, ?5)",
            (id, chunk.index as i64, chunk.start as i64, chunk.end as i64, &chunk.context_header),
        )
        .unwrap();
    }
    id
}

/// A document made of headings (`# ` and `## `) and paragraphs, with an empty
/// line between them. The title is the first heading, else the file's name.
fn save_doc(conn: &Connection, path: &str, file_type: FileType, source: &str) -> i64 {
    let mut plain = PlainText::default();
    let mut title = None;
    for part in source.split("\n\n") {
        if !plain.text.is_empty() {
            plain.text.push_str("\n\n");
        }
        let start = plain.text.len();
        let (heading_level, text) = match (part.strip_prefix("# "), part.strip_prefix("## ")) {
            (Some(text), _) => (Some(1), text),
            (_, Some(text)) => (Some(2), text),
            _ => (None, part),
        };
        if heading_level.is_some() && title.is_none() {
            title = Some(text.to_owned());
        }
        plain.text.push_str(text);
        plain.blocks.push(Block { start, end: plain.text.len(), heading_level });
    }
    let title = title.unwrap_or_else(|| stem(path));
    let chunks = chunk_document(&title, &plain);
    save(conn, path, file_type, &title, "hash", &plain, &chunks)
}

fn stem(path: &str) -> String {
    let name = path.rsplit(['/', '\\']).next().unwrap();
    name.rsplit_once('.').unwrap().0.to_owned()
}

fn save_doc_chunks(conn: &Connection, path: &str, file_type: FileType, pieces: &[&str]) -> i64 {
    let mut plain = PlainText::default();
    let mut chunks = Vec::new();
    for (index, piece) in pieces.iter().enumerate() {
        if index > 0 {
            plain.text.push_str("\n\n");
        }
        let start = plain.text.len();
        plain.text.push_str(piece);
        chunks.push(Chunk { index, context_header: String::new(), start, end: plain.text.len() });
    }
    save(conn, path, file_type, &stem(path), "hash", &plain, &chunks)
}

fn row_of(id: i64, path: String, title: String) -> DocumentRow {
    DocumentRow {
        id,
        path,
        file_name: String::new(),
        title,
        ext: String::new(),
        file_type: "text".to_owned(),
        file_size: 0,
        file_mtime_ms: 1_000,
        parse_status: "parsed".to_owned(),
        parse_error_code: None,
        parse_error_message: None,
        text_length: 0,
        chunk_count: 0,
        indexed_at: None,
        source_root: None,
        updated_at: 0,
    }
}

/// An integer that orders as the number does.
fn rank_key(rank: f64) -> i64 {
    let bits = rank.to_bits() as i64;
    bits ^ ((((bits >> 63) as u64) >> 1) as i64)
}

fn search(
    conn: &Connection,
    request: &SearchRequest,
    dictionary: &Dictionary,
) -> Result<SearchResponse, QueryError> {
    let plan = plan_search(request, dictionary)?;
    let mut params: Vec<Value> = plan
        .params
        .iter()
        .map(|param| match param {
            Param::Text(text) => Value::from(text.clone()),
            Param::Integer(number) => Value::from(*number),
        })
        .collect();
    assert_eq!(params[0], Value::from(plan.compiled.match_expr.clone()));
    params[0] = Value::from(spaced_expression(&plan.compiled.match_expr));
    let (total_documents, total_groups): (i64, i64) = conn
        .query_row(&plan.count_sql, params_from_iter(params.iter()), |row| {
            Ok((row.get(0)?, row.get(1)?))
        })
        .unwrap();
    let candidates: Vec<(i64, f64, String)> = conn
        .prepare(&plan.candidate_sql)
        .unwrap()
        .query_map(params_from_iter(params.iter()), |row| {
            Ok((row.get(0)?, row.get(1)?, row.get(2)?))
        })
        .unwrap()
        .collect::<Result<_, _>>()
        .unwrap();
    let mut gathering = Gathering::new();
    for (id, rank, key) in candidates {
        gathering.enter(&key);
        let (path, title): (String, String) = conn
            .query_row("SELECT path, title FROM documents WHERE id = ?1", [id], |row| {
                Ok((row.get(0)?, row.get(1)?))
            })
            .unwrap();
        let content: String = conn
            .query_row("SELECT plain_text FROM document_contents WHERE document_id = ?1", [id], |row| row.get(0))
            .unwrap();
        let Some(located) = examine(&content, &title, &plan.compiled.literals) else {
            continue;
        };
        let bounds: Vec<(usize, usize, String)> = conn
            .prepare(
                "SELECT start_offset, end_offset, context_header FROM chunks
                 WHERE document_id = ?1 ORDER BY chunk_index",
            )
            .unwrap()
            .query_map([id], |row| {
                Ok((row.get::<_, i64>(0)? as usize, row.get::<_, i64>(1)? as usize, row.get(2)?))
            })
            .unwrap()
            .collect::<Result<_, _>>()
            .unwrap();
        assert!(bounds_in_order(&bounds));
        gathering.accept(
            row_of(id, path, title),
            rank_key(rank),
            &content,
            located,
            &bounds,
            request.max_fragments_per_document,
        );
    }
    let (documents, total_hits) = finish(gathering, request.max_documents);
    Ok(SearchResponse {
        documents,
        total_hits,
        total_documents: total_documents as usize,
        total_groups: total_groups as usize,
        compiled: plan.compiled,
    })
}

fn find(conn: &Connection, request: &SearchRequest) -> SearchResponse {
    search(conn, request, &Dictionary::empty()).unwrap()
}

fn request(query: &str) -> SearchRequest {
    SearchRequest { query: query.to_owned(), ..SearchRequest::default() }
}

fn hit_paths(response: &SearchResponse) -> Vec<String> {
    response.documents.iter().map(|d| d.document.path.clone()).collect()
}

fn matching_rows(conn: &Connection, expression: &str) -> Vec<i64> {
    conn.prepare("SELECT rowid FROM documents_fts WHERE documents_fts MATCH ?1 ORDER BY rowid")
        .unwrap()
        .query_map([spaced_expression(expression)], |row| row.get(0))
        .unwrap()
        .collect::<Result<_, _>>()
        .unwrap()
}

fn owned(values: &[&str]) -> Vec<String> {
    values.iter().map(|value| (*value).to_owned()).collect()
}

fn test_groups() -> Synonyms {
    Synonyms::of(vec![owned(&["电脑", "计算机", "PC"]), owned(&["文档", "文件"])])
}

fn no_synonyms() -> Synonyms {
    Synonyms::of(vec![])
}

#[test]
fn exclusions_match_boolean_results_in_fts() {
    let conn = open_in_memory();
    for (index, text) in
        ["合同", "合同 文档", "合同 草稿", "合同 文档 草稿", "无关", "文档", "草稿"].iter().enumerate()
    {
        index_row(&conn, index as i64 + 1, "", text);
    }
    let segmenter = Segmenter::build(&vec![]);
    for (input, expected) in [
        ("-文档 -草稿 合同", vec![1]),
        ("合同 -文档 -草稿", vec![1]),
        ("NOT 文档 NOT 草稿 合同", vec![1]),
        ("合同 (-文档 -草稿)", vec![1]),
        ("-文档 (合同 -草稿)", vec![1]),
        ("content:(-文档 -草稿 合同)", vec![1]),
        ("合同 -content:文档 -content:草稿", vec![1]),
        ("合同 -title:文档", vec![1, 2, 3, 4]),
        ("(-文档 合同) -草稿", vec![1]),
        ("合同 -(文档 OR 草稿)", vec![1]),
        ("合同 -(文档 草稿)", vec![1, 2, 3]),
        ("(合同 -文档) OR (合同 -草稿)", vec![1, 2, 3]),
    ] {
        for cut in [None, Some(&segmenter)] {
            let query = compile_with(input, Scope::Content, cut, &no_synonyms()).unwrap();
            let actual = matching_rows(&conn, &query.match_expr);
            assert_eq!(actual, expected, "{input}: {}", query.match_expr);
        }
    }
}

#[test]
fn loose_punctuation_uses_real_fts_tokens() {
    let conn = open_in_memory();
    for (id, title, content) in [
        (1, "", "文档"),
        (2, "", "文、档"),
        (3, "", "文 档"),
        (4, "", "文其他档"),
        (5, "", "无关"),
    ] {
        index_row(&conn, id, title, content);
    }
    let segmenter = Segmenter::build(&vec![]);
    for input in ["文、档", "文🙂档", "文！档"] {
        let query = compile_with(input, Scope::All, Some(&segmenter), &no_synonyms()).unwrap();
        let actual = matching_rows(&conn, &query.match_expr);
        assert_eq!(actual, [1, 2, 3, 4], "{input}: {}", query.match_expr);
        assert_eq!(query.literals, ["文", "档"]);
    }
    for (input, cut) in [("文、档", None), ("\"文、档\"", Some(&segmenter))] {
        let query = compile_with(input, Scope::All, cut, &no_synonyms()).unwrap();
        assert_eq!(query.match_expr, "\"文、档\"");
        assert_eq!(query.literals, ["文、档"]);
        assert_eq!(matching_rows(&conn, &query.match_expr), [1, 2, 3]);
    }
}

#[test]
fn consecutive_exclusions_keep_synonyms_and_literals_separate() {
    let conn = open_in_memory();
    for (id, title, content) in [
        (1, "", "文件 计算机"),
        (2, "", "文档 PC"),
        (3, "", "文档 电脑"),
        (4, "", "文件 草稿"),
        (5, "", "无关"),
    ] {
        index_row(&conn, id, title, content);
    }
    for input in ["-电脑 -草稿 文档", "文档 (-电脑 -草稿)", "文档 -(电脑 OR 草稿)"] {
        let query = compile_with(input, Scope::All, None, &test_groups()).unwrap();
        assert_eq!(query.literals, ["文档", "文件"]);
        let actual = matching_rows(&conn, &query.match_expr);
        assert_eq!(actual, [1, 2], "{input}: {}", query.match_expr);
    }
}

#[test]
fn expanded_groups_run_against_fts5() {
    let conn = open_in_memory();
    for (id, title, content) in [
        (1, "计算机采购", "正文"),
        (2, "电脑采购", "正文"),
        (3, "无关", "正文"),
    ] {
        index_row(&conn, id, title, content);
    }
    for scope in [Scope::All, Scope::Title] {
        let query = compile_with("电脑", scope, None, &test_groups()).unwrap();
        let count: i64 = conn
            .query_row(
                "SELECT count(*) FROM documents_fts WHERE documents_fts MATCH ?1",
                [spaced_expression(&query.match_expr)],
                |row| row.get(0),
            )
            .unwrap_or_else(|error| panic!("{:?} 的产物被 FTS5 拒绝: {error}", scope));
        assert_eq!(count, 2, "scope={scope:?} expr={}", query.match_expr);
    }
}

#[test]
fn whitespace_insensitive_but_punctuation_rejected() {
    let conn = open_in_memory();
    save_doc(&conn, "/d/空格.txt", FileType::Text, "文 档");
    save_doc(&conn, "/d/换行.txt", FileType::Text, "文\n档");
    save_doc(&conn, "/d/顿号.txt", FileType::Text, "文、档");
    save_doc(&conn, "/d/连写.txt", FileType::Text, "文档");
    let response = find(&conn, &request("文档"));
    let paths = hit_paths(&response);
    assert_eq!(response.total_documents, 4, "FTS 总数包含标点假阳性");
    assert_eq!(paths.len(), 3, "{paths:?}");
    assert!(!paths.iter().any(|p| p.contains("顿号")));
    assert_eq!(response.total_hits, 3);
}

#[test]
fn ascii_case_insensitive_highlight_is_exact() {
    let conn = open_in_memory();
    save_doc(&conn, "/d/a.txt", FileType::Text, "合同编号 A4 其它内容");
    for query in ["a4", "A4"] {
        let response = find(&conn, &request(query));
        assert_eq!(response.total_documents, 1);
        let hit = &response.documents[0].hits[0];
        assert_eq!(hit.highlights.len(), 1);
        assert_eq!(&hit.content[hit.highlights[0].start..hit.highlights[0].end], "A4");
    }
}

#[test]
fn fragment_header_drops_redundant_document_title() {
    let conn = open_in_memory();
    save_doc(
        &conn,
        "/d/重复标题.txt",
        FileType::Text,
        "# 采购合同管理办法\n\n正文里出现合同二字。",
    );
    let response = find(&conn, &request("合同"));
    let hit = &response.documents[0].hits[0];
    assert_eq!(hit.context_header, "", "重复的文档标题不应展示");
}

#[test]
fn fragment_header_keeps_meaningful_section_path() {
    let conn = open_in_memory();
    let mut source = String::from("# 总则\n\n");
    source.push_str(&"第一章正文。".repeat(120));
    source.push_str("\n\n## 付款条款\n\n这里出现合同二字。");
    save_doc(&conn, "/d/多节.txt", FileType::Text, &source);
    let response = find(&conn, &request("合同"));
    let doc = &response.documents[0];
    let hit = doc.hits.iter().find(|h| h.content.contains("合同")).expect("应有命中片段");
    assert_eq!(hit.context_header, "付款条款");
}

#[test]
fn title_scope_only_matches_title() {
    let conn = open_in_memory();
    save_doc(&conn, "/d/标题命中.txt", FileType::Text, "# 合同\n\n正文无关");
    save_doc(&conn, "/d/正文命中.txt", FileType::Text, "正文里有合同二字");
    let response = find(&conn, &request("title:合同"));
    assert_eq!(hit_paths(&response), ["/d/标题命中.txt"]);
    assert!(!response.documents[0].title_highlights.is_empty());
    let response = find(&conn, &request("合同"));
    assert_eq!(response.total_documents, 2);
}

#[test]
fn title_only_hit_keeps_the_document() {
    let conn = open_in_memory();
    save_doc(&conn, "/d/仅标题.txt", FileType::Text, "# 合同管理\n\n正文完全无关");
    let response = find(&conn, &request("title:合同"));
    assert_eq!(response.total_documents, 1);
    assert!(!response.documents[0].title_highlights.is_empty());
}

#[test]
fn minus_excludes() {
    let conn = open_in_memory();
    save_doc(&conn, "/d/草稿.txt", FileType::Text, "合同编号 草稿版");
    save_doc(&conn, "/d/正式.txt", FileType::Text, "合同编号 正式版");
    let response = find(&conn, &request("合同 -草稿"));
    assert_eq!(hit_paths(&response), ["/d/正式.txt"]);
}

#[test]
fn loose_mode_matches_non_contiguous() {
    let conn = open_in_memory();
    let dictionary = Dictionary::build(&vec![], vec![]);
    save_doc(&conn, "/d/散开.txt", FileType::Text, "文档,然后管理,再归档");
    let loose =
        search(&conn, &SearchRequest { loose: true, ..request("文档管理") }, &dictionary).unwrap();
    assert_eq!(loose.total_documents, 1);
    assert!(loose.compiled.literals.len() >= 2);
    let exact = search(&conn, &request("文档管理"), &dictionary).unwrap();
    assert_eq!(exact.total_documents, 0, "精确模式不应命中非连续文本");
}

#[test]
fn filters_by_file_type_and_path_prefix() {
    let conn = open_in_memory();
    save_doc(&conn, "/data/docs/a.pdf", FileType::Pdf, "检索词正文");
    save_doc(&conn, "/data/docs/b.docx", FileType::Word, "检索词正文");
    save_doc(&conn, "/other/c.pdf", FileType::Pdf, "检索词正文");
    let typed = find(
        &conn,
        &SearchRequest {
            filters: Filters { file_types: vec!["pdf".to_owned()], ..Filters::default() },
            ..request("检索词")
        },
    );
    assert_eq!(typed.total_documents, 2);
    let prefixed = find(
        &conn,
        &SearchRequest {
            filters: Filters { path_prefix: Some("/data/docs/".to_owned()), ..Filters::default() },
            ..request("检索词")
        },
    );
    assert_eq!(prefixed.total_documents, 2);
    assert_eq!(hit_paths(&prefixed), ["/data/docs/a.pdf", "/data/docs/b.docx"]);
}

#[test]
fn path_prefix_filter_tolerates_verbatim_prefix() {
    let conn = open_in_memory();
    for (path, tag) in
        [(r"C:\docs\干净.docx", "干净"), (r"\\?\C:\docs\带前缀.docx", "带前缀")]
    {
        save_doc(&conn, path, FileType::Word, &format!("检索词正文 {tag}"));
    }
    let by_plain = find(
        &conn,
        &SearchRequest {
            filters: Filters { path_prefix: Some(r"C:\docs\".to_owned()), ..Filters::default() },
            ..request("检索词")
        },
    );
    assert_eq!(by_plain.total_documents, 2, "普通前缀应同时命中两种形态");
    let by_verbatim = find(
        &conn,
        &SearchRequest {
            filters: Filters {
                path_prefix: Some(r"\\?\C:\docs\".to_owned()),
                ..Filters::default()
            },
            ..request("检索词")
        },
    );
    assert_eq!(by_verbatim.total_documents, 1, "带前缀的输入应命中带前缀的行");
}

#[test]
fn all_hits_are_kept_and_totals_are_exact() {
    let conn = open_in_memory();
    save_doc_chunks(
        &conn,
        "/d/多段.txt",
        FileType::Text,
        &["合同甲", "合同乙", "合同丙", "合同丁", "合同戊"],
    );
    save_doc(&conn, "/d/单段.txt", FileType::Text, "合同只有一处");
    let response = find(&conn, &request("合同"));
    assert_eq!(response.total_hits, 6);
    assert_eq!(response.total_documents, 2);
    let doc = response
        .documents
        .iter()
        .find(|d| d.document.path == "/d/多段.txt")
        .expect("多段文档应命中");
    assert_eq!(doc.hits.len(), 5);
    assert_eq!(doc.total_hits, 5);
    let mut prev = 0usize;
    for hit in &doc.hits {
        assert!(hit.start_offset >= prev, "片段应按位置升序");
        prev = hit.start_offset;
        assert!(!hit.highlights.is_empty());
    }
    let truncated = find(&conn, &SearchRequest { max_documents: 1, ..request("合同") });
    assert_eq!(truncated.documents.len(), 1);
    assert_eq!(truncated.total_documents, 2);
    assert_eq!(truncated.total_hits, 5);
}

#[test]
fn fragments_per_document_are_capped() {
    let conn = open_in_memory();
    save_doc_chunks(
        &conn,
        "/d/多段.txt",
        FileType::Text,
        &["合同甲", "合同乙", "合同丙", "合同丁", "合同戊"],
    );
    let response =
        find(&conn, &SearchRequest { max_fragments_per_document: 2, ..request("合同") });
    let doc = &response.documents[0];
    assert_eq!(doc.hits.len(), 2, "片段数应受 max_fragments_per_document 限制");
    assert_eq!(response.total_documents, 1);
}

#[test]
fn words_far_apart_in_one_document_still_intersect() {
    let conn = open_in_memory();
    save_doc_chunks(
        &conn,
        "/d/远距.txt",
        FileType::Text,
        &["前段提到合同", "无关内容", "后段提到发票"],
    );
    let response = find(&conn, &request("合同 发票"));
    assert_eq!(response.total_documents, 1, "同篇不同块的两词应命中");
    let doc = &response.documents[0];
    assert_eq!(doc.hits.len(), 2, "两个块各出一个片段");
    for hit in &doc.hits {
        assert_eq!(hit.content.len(), hit.end_offset - hit.start_offset);
    }
}

#[test]
fn phrase_split_across_fragment_boundary_is_found() {
    let conn = open_in_memory();
    save_doc_chunks(&conn, "/d/跨界.txt", FileType::Text, &["前文到公文", "编号后续内容"]);
    let response = find(&conn, &request("公文编号"));
    assert_eq!(response.total_documents, 1);
    let doc = &response.documents[0];
    assert_eq!(doc.hits.len(), 1, "跨块短语应并入一个片段");
    let hit = &doc.hits[0];
    assert!(
        hit.content.contains("公文") && hit.content.contains("编号"),
        "片段应同时含短语两半:{}",
        hit.content
    );
}

#[test]
fn syntax_error_surfaces_chinese_message() {
    let conn = open_in_memory();
    let error = search(&conn, &request("文档*"), &Dictionary::empty()).unwrap_err();
    assert!(error.message().contains("搜索语法错误"));
}

#[test]
fn documents_with_the_same_content_form_a_group() {
    let conn = open_in_memory();
    let mut plain = PlainText::default();
    plain.text.push_str("合同");
    plain.blocks.push(Block { start: 0, end: 6, heading_level: None });
    let hash = "0a".repeat(32);
    let first = save(&conn, "/d/一.txt", FileType::Text, "一", &hash, &plain, &[]);
    let upper = hash.to_uppercase();
    let second = save(&conn, "/d/二.txt", FileType::Text, "二", &upper, &plain, &[]);
    let third = save(&conn, "/d/三.txt", FileType::Text, "三", "", &plain, &[]);
    let response = find(&conn, &request("合同"));
    assert_eq!(response.total_documents, 3);
    assert_eq!(response.total_groups, 2);
    assert_eq!(response.total_hits, 2);
    let representatives: Vec<i64> =
        response.representatives().iter().map(|i| response.documents[*i].document.id).collect();
    assert_eq!(representatives, [first, third]);
    let locations: Vec<i64> =
        response.locations(first).iter().map(|i| response.documents[*i].document.id).collect();
    assert_eq!(locations, [first, second]);
    assert!(response.locations(second).is_empty());
}

#[test]
fn no_documents_are_shown_where_none_are_asked_for() {
    let conn = open_in_memory();
    save_doc(&conn, "/d/a.txt", FileType::Text, "合同");
    let response = find(&conn, &SearchRequest { max_documents: 0, ..request("合同") });
    assert!(response.documents.is_empty());
    assert_eq!(response.total_hits, 0);
    assert_eq!(response.total_documents, 1);
}

#[test]
fn capped_documents_tell_all_their_fragments() {
    let conn = open_in_memory();
    save_doc_chunks(
        &conn,
        "/d/多段.txt",
        FileType::Text,
        &["合同甲", "合同乙", "合同丙", "合同丁", "合同戊"],
    );
    let response =
        find(&conn, &SearchRequest { max_fragments_per_document: 2, ..request("合同") });
    assert_eq!(response.documents[0].hits.len(), 2);
    assert_eq!(response.documents[0].hits[1].content, "合同乙");
    assert_eq!(response.documents[0].total_hits, 5);
    assert_eq!(response.total_hits, 2);
}

#[test]
fn stale_index_tokens_are_filtered_by_literal_recheck() {
    let conn = open_in_memory();
    let id = save_doc(&conn, "/d/a.txt", FileType::Text, "内容是正常的原文");
    // Tokens that the text does not have, in the row of the document.
    index_row(&conn, id, "x", "垃圾词");
    assert_eq!(matching_rows(&conn, "\"垃圾词\"").len(), 1, "残留词元会让 MATCH 命中");

    let response = find(&conn, &request("垃圾词"));
    assert_eq!(response.total_documents, 1);
    assert!(response.documents.is_empty(), "字面量复核应把假阳性剔除");

    // The index written anew.
    conn.execute("INSERT INTO documents_fts(documents_fts) VALUES ('delete-all')", []).unwrap();
    index_row(&conn, id, "a", "内容是正常的原文");
    assert_eq!(matching_rows(&conn, "\"垃圾词\"").len(), 0, "重建后残留词元应消失");
}
