use rsou::cli::{
    command, file_type_of_token, file_types_of, hit_summary, limit_of, mark_snippet, parse_args,
    scope_of, split_list, Command, Stop,
};
use rsou::query::Scope;
use rsou::search::Span;

fn owned(values: &[&str]) -> Vec<String> {
    values.iter().map(|value| (*value).to_owned()).collect()
}

#[test]
fn arguments_are_read() {
    let args = parse_args(&owned(&[
        "search", "合同", "--db", "/x.db", "--loose", "--scope", "title", "--type", "pdf", "--limit", "3",
    ]))
    .unwrap();
    assert_eq!(args.db.as_deref(), Some("/x.db"));
    assert!(args.loose && !args.force && !args.yes);
    assert_eq!(args.scope.as_deref(), Some("title"));
    assert_eq!(args.types.as_deref(), Some("pdf"));
    assert_eq!(args.limit.as_deref(), Some("3"));
    assert_eq!(args.positional, ["search", "合同"]);
    assert!(matches!(command(&args), Ok(Command::Search(query)) if query == "合同"));
}

#[test]
fn wrong_arguments_stop() {
    for (args, message) in [
        (vec!["--db"], "--db 需要一个路径参数"),
        (vec!["--scope"], "--scope 需要 all|title|content"),
        (vec!["--type"], "--type 需要类型列表,如 word,pdf"),
        (vec!["--limit"], "--limit 需要一个数字"),
        (vec!["--what"], "无法识别的参数: --what"),
    ] {
        let stop = parse_args(&owned(&args)).unwrap_err();
        assert!(matches!(stop, Stop::Usage(text) if text == message));
    }
    assert!(matches!(parse_args(&owned(&["docs", "-h", "--what"])), Err(Stop::Help)));
}

#[test]
fn commands_need_their_arguments() {
    let run = |args: &[&str]| command(&parse_args(&owned(args)).unwrap());
    assert_eq!(run(&[]).unwrap_err(), "");
    assert_eq!(run(&["import"]).unwrap_err(), "import 需要至少一个文件或目录路径");
    assert_eq!(run(&["parse"]).unwrap_err(), "parse 需要一个文件路径");
    assert_eq!(run(&["text"]).unwrap_err(), "text 需要一个文件路径");
    assert_eq!(run(&["search"]).unwrap_err(), "search 需要一个查询词");
    assert_eq!(run(&["clear"]).unwrap_err(), "clear 会删除全部文档与索引,请加 --yes 确认");
    assert_eq!(run(&["what"]).unwrap_err(), "未知命令: what");
    assert!(matches!(run(&["clear", "--yes"]), Ok(Command::Clear)));
    assert!(matches!(run(&["docs"]), Ok(Command::Docs)));
    assert!(matches!(run(&["stats"]), Ok(Command::Stats)));
    assert!(matches!(run(&["schema"]), Ok(Command::Schema)));
    assert!(matches!(run(&["check"]), Ok(Command::Check)));
    assert!(matches!(run(&["rebuild"]), Ok(Command::Rebuild)));
    assert!(matches!(run(&["optimize"]), Ok(Command::Optimize)));
    assert!(matches!(run(&["purge-markdown"]), Ok(Command::PurgeMarkdown)));
    assert!(matches!(run(&["import", "a", "b"]), Ok(Command::Import(paths)) if paths == ["a", "b"]));
    assert!(matches!(run(&["parse", "a"]), Ok(Command::Parse(path)) if path == "a"));
    assert!(matches!(run(&["text", "a"]), Ok(Command::Text(path)) if path == "a"));
}

#[test]
fn options_have_values() {
    assert_eq!(scope_of(None), Ok(Scope::All));
    assert_eq!(scope_of(Some("content")), Ok(Scope::Content));
    assert_eq!(scope_of(Some("x")).unwrap_err(), "未知的检索范围: x(可用 all|title|content)");
    assert_eq!(limit_of(Some("7")), Ok(7));
    assert_eq!(limit_of(Some("0")), Ok(0));
    assert_eq!(limit_of(None), Ok(100));
    for wrong in ["", "x", "-1"] {
        assert_eq!(limit_of(Some(wrong)).unwrap_err(), format!("--limit 需要一个正整数: {wrong}"));
    }
}

#[test]
fn types_are_named_or_extensions() {
    assert_eq!(file_type_of_token("word").as_deref(), Some("word"));
    assert_eq!(file_type_of_token("docx").as_deref(), Some("word"));
    assert_eq!(file_type_of_token("exe"), None);
    assert_eq!(split_list(" a, ,b,"), ["a", "", "b", ""]);
    assert_eq!(file_types_of("word, xlsx").unwrap(), ["word", "excel"]);
    assert_eq!(file_types_of("word,exe").unwrap_err(), "未知的文件类型: exe");
}

#[test]
fn snippets_are_marked() {
    let spans = vec![Span { start: 3, end: 9 }];
    assert_eq!(mark_snippet("前合同后", &spans), "前【合同】后");
    assert_eq!(mark_snippet("前合同后", &vec![]), "前合同后");
    // Ranges that overlap the one before them or end behind the text get no marks.
    let spans = vec![
        Span { start: 3, end: 9 },
        Span { start: 4, end: 10 },
        Span { start: 10, end: 13 },
    ];
    assert_eq!(mark_snippet("前合同后", &spans), "前【合同】后");
}

#[test]
fn hits_are_summed_up() {
    assert_eq!(hit_summary(3, 2, false), "共 3 个命中片段，展示前 2 个");
    assert_eq!(hit_summary(2, 2, true), "2 个命中片段");
    assert_eq!(hit_summary(0, 0, true), "标题命中");
    assert_eq!(hit_summary(0, 0, false), "未定位到展示片段");
}
