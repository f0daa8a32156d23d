use rsou::dict::Dictionary;
use rsou::repo::DocumentRow;
use rsou::search::{
    bounds_in_order, escape_like, examine, filter_conditions, finish, group_into_fragments,
    locate_literals, plan_search, Filters, Gathering, Hit, Located, Param, SearchRequest, Span,
    MAX_CANDIDATES,
};

fn owned(values: &[&str]) -> Vec<String> {
    values.iter().map(|value| (*value).to_owned()).collect()
}

fn distinct_header_count(bounds: &[(usize, usize, String)]) -> usize {
    let mut seen: Vec<&str> = Vec::new();
    for (_, _, header) in bounds {
        if !header.is_empty() && !seen.contains(&header.as_str()) {
            seen.push(header);
        }
    }
    seen.len()
}

fn fragment_header(header: &str, header_count: usize, document_title: &str) -> String {
    if header_count == 0 || header.is_empty() {
        return String::new();
    }
    let without_title = match header.split_once(" › ") {
        Some((first, rest)) if first == document_title => rest,
        _ => header,
    };
    if without_title.is_empty() || without_title == document_title {
        return String::new();
    }
    without_title.to_owned()
}

/// Fragments found by looking through all blocks for every span.
fn plain_group_into_fragments(
    content: &str,
    spans: &[Span],
    bounds: &[(usize, usize, String)],
    document_title: &str,
    limit: usize,
) -> Vec<Hit> {
    if spans.is_empty() {
        return Vec::new();
    }
    let fallback;
    let bounds: &[(usize, usize, String)] = if bounds.is_empty() {
        fallback = vec![(0, content.len(), String::new())];
        &fallback
    } else {
        bounds
    };
    let header_count = distinct_header_count(bounds);
    let header_count = if header_count <= 1 { 0 } else { header_count };
    let block_of = |byte: usize| -> usize {
        bounds
            .iter()
            .position(|(start, end, _)| byte >= *start && byte < *end)
            .unwrap_or_else(|| bounds.len().saturating_sub(1))
    };
    let mut groups: Vec<(usize, usize)> = Vec::new();
    for span in spans {
        let first = block_of(span.start);
        let last = block_of(span.end.saturating_sub(1)).max(first);
        match groups.last_mut() {
            Some(group) if first <= group.1 => group.1 = group.1.max(last),
            _ => groups.push((first, last)),
        }
    }
    let mut hits = Vec::with_capacity(groups.len().min(limit));
    for (first, last) in groups {
        if hits.len() >= limit {
            break;
        }
        let start = bounds[first].0;
        let end = bounds[last].1;
        let Some(piece) = content.get(start..end) else {
            continue;
        };
        let highlights: Vec<Span> = spans
            .iter()
            .filter(|span| span.start >= start && span.end <= end)
            .map(|span| Span { start: span.start - start, end: span.end - start })
            .collect();
        hits.push(Hit {
            start_offset: start,
            end_offset: end,
            content: piece.to_owned(),
            context_header: fragment_header(&bounds[first].2, header_count, document_title),
            highlights,
        });
    }
    hits
}

fn assert_same_fragments(actual: &[Hit], expected: &[Hit]) {
    assert_eq!(actual.len(), expected.len());
    for (actual, expected) in actual.iter().zip(expected) {
        assert_eq!(actual.start_offset, expected.start_offset);
        assert_eq!(actual.end_offset, expected.end_offset);
        assert_eq!(actual.content, expected.content);
        assert_eq!(actual.context_header, expected.context_header);
        assert_eq!(actual.highlights, expected.highlights);
    }
}

#[test]
fn fragment_cursors_match_legacy() {
    let content = "甲a乙b丙c丁d戊e己f庚g辛h壬i癸j";
    let offsets: Vec<_> = content
        .char_indices()
        .map(|(offset, _)| offset)
        .chain(std::iter::once(content.len()))
        .collect();
    let mut seed = 42_u64;
    let mut next = |max: usize| {
        seed = seed.wrapping_mul(6364136223846793005).wrapping_add(1);
        ((seed >> 32) as usize) % max
    };
    for case in 0..2000 {
        let mut bounds = Vec::new();
        let mut cursor = 0;
        while cursor + 1 < offsets.len() && case % 10 != 0 {
            cursor += next(3);
            if cursor + 1 >= offsets.len() {
                break;
            }
            let end = (cursor + 1 + next(5)).min(offsets.len() - 1);
            bounds.push((offsets[cursor], offsets[end], format!("文档 › 节{}", next(3))));
            cursor = end;
        }
        let mut spans = Vec::new();
        cursor = 0;
        while cursor + 1 < offsets.len() {
            cursor += next(3);
            if cursor + 1 >= offsets.len() {
                break;
            }
            let end = (cursor + 1 + next(6)).min(offsets.len() - 1);
            spans.push(Span { start: offsets[cursor], end: offsets[end] });
            cursor = end;
        }
        if case % 17 == 0 {
            spans.clear();
        }
        for limit in [0, 1, 2, 20, usize::MAX] {
            assert_same_fragments(
                &group_into_fragments(content, &spans, &bounds, "文档", limit),
                &plain_group_into_fragments(content, &spans, &bounds, "文档", limit),
            );
        }
    }
}

#[test]
fn locate_literals_merges_overlaps_and_ignores_case() {
    let text = "文档管理文档,A4 与 a4 各一处";
    let spans = locate_literals(text, &owned(&["文档", "a4"]));
    let located: Vec<&str> = spans.iter().map(|s| &text[s.start..s.end]).collect();
    assert_eq!(located, ["文档", "文档", "A4", "a4"]);
    let spans = locate_literals("文档文档", &owned(&["文档", "档文"]));
    assert_eq!(spans, vec![Span { start: 0, end: 12 }]);
    let spans = locate_literals("前合同后", &owned(&["合同"]));
    assert_eq!(&"前合同后"[spans[0].start..spans[0].end], "合同");
}

#[test]
fn locate_literals_tolerates_whitespace_inside_literal() {
    for text in ["文 档", "文\n档"] {
        let spans = locate_literals(text, &owned(&["文档"]));
        assert_eq!(spans.len(), 1, "应命中 {text:?}");
        assert_eq!(&text[spans[0].start..spans[0].end], text);
    }
    assert!(locate_literals("文、档", &owned(&["文档"])).is_empty());
}

#[test]
fn spans_rise_and_show_literals() {
    let text = "ab AB a  b abab";
    let spans = locate_literals(text, &owned(&["ab", "ba"]));
    for pair in spans.windows(2) {
        assert!(pair[0].end < pair[1].start);
    }
    let shown: Vec<String> = spans
        .iter()
        .map(|s| text[s.start..s.end].replace(' ', "").to_ascii_lowercase())
        .collect();
    assert!(shown.iter().all(|s| s.contains("ab") || s.contains("ba")));
    assert!(locate_literals("", &owned(&["a"])).is_empty());
    assert!(locate_literals("a", &owned(&[""])).is_empty());
    assert!(locate_literals("a", &vec![]).is_empty());
}

#[test]
fn span_over_two_blocks_is_not_cut() {
    let bounds = vec![(0, 3, "甲".to_owned()), (3, 6, "乙".to_owned())];
    let hits = group_into_fragments("abcdef", &vec![Span { start: 2, end: 4 }], &bounds, "", 9);
    assert_eq!(hits.len(), 1);
    assert_eq!((hits[0].start_offset, hits[0].end_offset), (0, 6));
    assert_eq!(hits[0].highlights, [Span { start: 2, end: 4 }]);
    assert_eq!(hits[0].context_header, "甲");
}

#[test]
fn blocks_must_follow_each_other() {
    let block = |start: usize, end: usize| (start, end, String::new());
    assert!(bounds_in_order(&vec![]));
    assert!(bounds_in_order(&vec![block(0, 3), block(3, 4)]));
    assert!(!bounds_in_order(&vec![block(0, 3), block(2, 4)]));
    assert!(!bounds_in_order(&vec![block(3, 1)]));
}

#[test]
fn patterns_are_taken_literally() {
    assert_eq!(escape_like(r"a_b%c\d"), r"a\_b\%c\\d");
    assert_eq!(escape_like("/home"), "/home");
}

fn shown(params: &[Param]) -> Vec<String> {
    params
        .iter()
        .map(|param| match param {
            Param::Text(text) => text.clone(),
            Param::Integer(number) => format!("#{number}"),
        })
        .collect()
}

#[test]
fn filters_become_conditions() {
    let filters = Filters {
        file_types: owned(&["pdf", "word"]),
        mtime_from_ms: Some(-5),
        mtime_to_ms: Some(7),
        path_prefix: Some("/a_b".to_owned()),
    };
    let (sql, params) = filter_conditions(&filters);
    assert_eq!(
        sql,
        " AND d.file_type IN (?,?) AND d.file_mtime_ms >= ? AND d.file_mtime_ms <= ? AND (d.path LIKE ? ESCAPE '\\' OR d.path LIKE ? ESCAPE '\\')"
    );
    assert_eq!(
        shown(&params),
        ["pdf", "word", "#-5", "#7", r"/a\_b%", r"\\\\?\\/a\_b%"]
    );
    let (sql, params) = filter_conditions(&Filters::default());
    assert_eq!(sql, "");
    assert!(params.is_empty());
}

#[test]
fn plans_put_the_expression_first() {
    let request = SearchRequest { query: "合同".to_owned(), ..SearchRequest::default() };
    let plan = plan_search(&request, &Dictionary::empty()).unwrap();
    assert_eq!(shown(&plan.params), ["\"合同\""]);
    assert!(plan.count_sql.starts_with("SELECT COUNT(*), COUNT(DISTINCT CASE"));
    assert!(plan.candidate_sql.contains(&format!("LIMIT {MAX_CANDIDATES})")));
    let none = SearchRequest { max_documents: 0, ..request };
    let plan = plan_search(&none, &Dictionary::empty()).unwrap();
    assert!(plan.candidate_sql.contains("LIMIT 0)"));
    let wrong = SearchRequest { query: "-a".to_owned(), ..SearchRequest::default() };
    assert!(plan_search(&wrong, &Dictionary::empty()).is_err());
}

fn row(id: i64) -> DocumentRow {
    DocumentRow {
        id,
        path: format!("/d/{id}.txt"),
        file_name: format!("{id}.txt"),
        title: "合同".to_owned(),
        ext: "txt".to_owned(),
        file_type: "text".to_owned(),
        file_size: 0,
        file_mtime_ms: 0,
        parse_status: "parsed".to_owned(),
        parse_error_code: None,
        parse_error_message: None,
        text_length: 0,
        chunk_count: 0,
        indexed_at: None,
        source_root: None,
        updated_at: 0,
    }
}

fn take(gathering: &mut Gathering, id: i64, rank: i64) {
    let content = "甲合同乙";
    let located = examine(content, "合同", &owned(&["合同"])).unwrap();
    gathering.accept(row(id), rank, content, located, &vec![], 20);
}

#[test]
fn groups_are_ordered_by_their_representatives() {
    let mut gathering = Gathering::new();
    gathering.enter("x");
    take(&mut gathering, 5, -3);
    take(&mut gathering, 6, -9);
    gathering.enter("y");
    take(&mut gathering, 2, -4);
    gathering.enter("z");
    take(&mut gathering, 9, -3);
    let (documents, fragments) = finish(gathering, 2);
    let ids: Vec<(i64, i64)> = documents.iter().map(|d| (d.group_id, d.document.id)).collect();
    assert_eq!(ids, [(2, 2), (5, 5), (5, 6)]);
    assert_eq!(fragments, 2);
    assert_eq!(documents[0].title_highlights, [Span { start: 0, end: 6 }]);
}

#[test]
fn documents_are_taken_in_once() {
    let mut gathering = Gathering::new();
    gathering.enter("x");
    take(&mut gathering, 5, -3);
    take(&mut gathering, 5, -4);
    let (documents, fragments) = finish(gathering, 10);
    assert_eq!(documents.len(), 1);
    assert_eq!(documents[0].best_rank, -3);
    assert_eq!(fragments, 1);
}

#[test]
fn candidates_without_literals_are_passed_over() {
    assert!(examine("文、档", "题", &owned(&["文档"])).is_none());
    let Located { content, title } = examine("文、档", "文档", &owned(&["文档"])).unwrap();
    assert!(content.is_empty());
    assert_eq!(title, [Span { start: 0, end: 6 }]);
}

#[test]
fn every_occurrence_is_touched() {
    let text = "aaa bA 文 档，文档";
    for literal in ["aa", "ab", "文档", " "] {
        let spans = locate_literals(text, &owned(&[literal]));
        let hay = text.to_ascii_lowercase();
        for (start, _) in hay.char_indices() {
            if hay[start..].starts_with(literal) {
                let end = start + literal.len();
                assert!(spans.iter().any(|s| s.start < end && start < s.end), "{literal} {start}");
            }
        }
    }
}

#[test]
fn something_is_found_where_a_literal_stands() {
    let squeeze = |s: &str| s.split_whitespace().collect::<String>().to_ascii_lowercase();
    for text in ["文 档", "文、档", "a B\nc", "", " \t"] {
        for literal in ["文档", "文、档", "ABC", "b c", "x"] {
            let stands = squeeze(text).contains(&squeeze(literal));
            assert_eq!(!locate_literals(text, &owned(&[literal])).is_empty(), stands, "{text} {literal}");
        }
    }
    assert_eq!(locate_literals("a  b", &owned(&[" "])), [Span { start: 1, end: 3 }]);
}

#[test]
fn spans_are_shown_once_and_share_fragments_through_blocks() {
    let content = "甲乙丙丁戊己";
    // A block for each character.
    let bounds: Vec<(usize, usize, String)> =
        (0..6).map(|i| (3 * i, 3 * i + 3, String::new())).collect();
    let span = |start: usize, end: usize| Span { start: 3 * start, end: 3 * end };
    // The second starts in the block that the first ends in; the third stands alone.
    let spans = vec![Span { start: 0, end: 4 }, Span { start: 4, end: 6 }, span(4, 5)];
    let hits = group_into_fragments("abcdefghijklmnopqr", &spans, &bounds, "", usize::MAX);
    assert_eq!(hits.len(), 2);
    assert_eq!((hits[0].start_offset, hits[0].end_offset), (0, 6));
    assert_eq!((hits[1].start_offset, hits[1].end_offset), (12, 15));
    assert_eq!(hits[0].content, "abcdef");
    let shown: Vec<(usize, usize)> = hits
        .iter()
        .flat_map(|hit| {
            let at = hit.start_offset;
            hit.highlights.iter().map(move |h| (h.start + at, h.end + at))
        })
        .collect();
    assert_eq!(shown, [(0, 4), (4, 6), (12, 15)]);

    let spans = vec![span(0, 1), span(1, 3), span(3, 4)];
    let all = group_into_fragments(content, &spans, &bounds, "", usize::MAX);
    let texts: Vec<&str> = all.iter().map(|hit| hit.content.as_str()).collect();
    assert_eq!(texts, ["甲", "乙丙", "丁"]);
    let first = group_into_fragments(content, &spans, &bounds, "", 2);
    assert_eq!(first.len(), 2);
    assert_eq!(first[1].content, "乙丙");
}

#[test]
fn representatives_come_first_in_their_groups() {
    let mut gathering = Gathering::new();
    for (key, ids) in [("x", [7, 3, 8]), ("y", [4, 1, 6])] {
        gathering.enter(key);
        for id in ids {
            take(&mut gathering, id, -id);
        }
    }
    let (documents, _) = finish(gathering, 10);
    let ids: Vec<(i64, i64)> = documents.iter().map(|d| (d.group_id, d.document.id)).collect();
    assert_eq!(ids, [(7, 7), (7, 3), (7, 8), (4, 4), (4, 1), (4, 6)]);
}
