//! Upkeep of the index: numbers, checks, and rebuilding the full-text table.

use vstd::prelude::*;
use vstd::string::StringExecFns;

use crate::paths::option_str;
use crate::repo::Stats;
use crate::text::{decimal, decimal_of, join, joined, same, texts};

verus! {

/// Documents that are put into the full-text table at once while it is rebuilt.
pub const PROGRESS_STEP: u64 = 500;

/// Numbers about the index.
#[derive(Debug, Clone, Copy, PartialEq, Eq, Structural)]
pub struct IndexStats {
    pub documents: i64,
    pub parsed: i64,
    pub failed: i64,
    pub chunks: i64,
    /// Rows of the full-text table, one for each parsed document.
    pub fts_rows: i64,
    /// Size of the index on disk.
    pub db_bytes: u64,
    /// Size of all texts.
    pub text_bytes: i64,
}

/// The sum of sizes, up to the largest number there is.
pub open spec fn capped_sum(a: u64, b: u64, c: u64) -> int {
    if a + b + c <= u64::MAX {
        a + b + c
    } else {
        u64::MAX as int
    }
}

/// Size of the index on disk: the database and its two companions.
pub fn db_file_bytes(database: u64, wal: u64, shm: u64) -> (n: u64)
    ensures
        n == capped_sum(database, wal, shm),
{
    database.saturating_add(wal).saturating_add(shm)
}

/// Puts the numbers about the index together.
pub fn index_stats(base: &Stats, fts_rows: i64, db_bytes: u64, text_bytes: i64) -> (s: IndexStats)
    ensures
        s == (IndexStats {
            documents: base.documents,
            parsed: base.parsed,
            failed: base.failed,
            chunks: base.chunks,
            fts_rows,
            db_bytes,
            text_bytes,
        }),
{
    IndexStats {
        documents: base.documents,
        parsed: base.parsed,
        failed: base.failed,
        chunks: base.chunks,
        fts_rows,
        db_bytes,
        text_bytes,
    }
}

/// What a check of the index found.
#[derive(Debug)]
pub struct IntegrityReport {
    /// The database found nothing wrong with itself.
    pub sqlite_ok: bool,
    /// What the database found.
    pub sqlite_messages: Vec<String>,
    /// The full-text table found nothing wrong with itself.
    pub fts_ok: bool,
    pub fts_message: Option<String>,
    /// Documents without a row in the full-text table.
    pub missing_in_fts: i64,
    /// Rows of the full-text table without a document.
    pub orphan_in_fts: i64,
}

/// The messages without those that say that all is well.
pub open spec fn complaints(messages: Seq<Seq<char>>) -> Seq<Seq<char>>
    decreases messages.len(),
{
    if messages.len() == 0 {
        Seq::empty()
    } else if messages.last() == "ok"@ {
        complaints(messages.drop_last())
    } else {
        complaints(messages.drop_last()).push(messages.last())
    }
}

/// Puts the findings of a check together.
pub fn integrity_report(
    messages: &Vec<String>,
    fts_message: Option<String>,
    missing_in_fts: i64,
    orphan_in_fts: i64,
) -> (report: IntegrityReport)
    ensures
        texts(report.sqlite_messages@) == complaints(texts(messages@)),
        report.sqlite_ok == (complaints(texts(messages@)).len() == 0),
        report.fts_ok == (fts_message is None),
        report.fts_message == fts_message,
        report.missing_in_fts == missing_in_fts,
        report.orphan_in_fts == orphan_in_fts,
{
    let mut kept: Vec<String> = Vec::new();
    let mut i: usize = 0;
    assert(texts(kept@) =~= Seq::empty());
    while i < messages.len()
        invariant
            i <= messages@.len(),
            texts(kept@) == complaints(texts(messages@).take(i as int)),
        decreases messages@.len() - i,
    {
        proof {
            assert(texts(messages@).take(i + 1).drop_last() =~= texts(messages@).take(i as int));
            assert(texts(messages@).take(i + 1).last() == messages@[i as int]@);
        }
        if !same(messages[i].as_str(), "ok") {
            let ghost before = kept@;
            kept.push(messages[i].clone());
            assert(texts(kept@) =~= texts(before).push(messages@[i as int]@));
        }
        i += 1;
    }
    assert(texts(messages@).take(i as int) =~= texts(messages@));
    assert(texts(kept@).len() == kept@.len());
    IntegrityReport {
        sqlite_ok: kept.len() == 0,
        sqlite_messages: kept,
        fts_ok: fts_message.is_none(),
        fts_message,
        missing_in_fts,
        orphan_in_fts,
    }
}

/// What is wrong with the index, in the order in which it is told.
pub open spec fn findings(report: IntegrityReport) -> Seq<Seq<char>> {
    (if report.sqlite_ok {
        Seq::empty()
    } else {
        seq!["SQLite 结构异常("@ + joined(texts(report.sqlite_messages@), ";"@) + ")"@]
    }) + (match report.fts_message {
        Some(message) => seq!["全文索引自检失败("@ + message@ + ")"@],
        None => Seq::empty(),
    }) + (if report.missing_in_fts > 0 {
        seq![decimal(report.missing_in_fts as nat) + " 篇文档没有索引行"@]
    } else {
        Seq::empty()
    }) + (if report.orphan_in_fts > 0 {
        seq![decimal(report.orphan_in_fts as nat) + " 条索引行找不到文档"@]
    } else {
        Seq::empty()
    })
}

impl IntegrityReport {
    /// Nothing was found.
    pub open spec fn consistent(&self) -> bool {
        self.sqlite_ok && self.fts_ok && self.missing_in_fts == 0 && self.orphan_in_fts == 0
    }

    /// Whether nothing was found.
    pub fn is_consistent(&self) -> (r: bool)
        ensures
            r == self.consistent(),
    {
        self.sqlite_ok && self.fts_ok && self.missing_in_fts == 0 && self.orphan_in_fts == 0
    }

    /// What was found, in one line.
    pub fn summary(&self) -> (s: String)
        ensures
            s@ == if self.consistent() {
                "索引一致:SQLite 结构与全文索引自检正常,行数对齐"@
            } else {
                "索引不一致:"@ + joined(findings(*self), ","@)
                    + ";建议执行「重建全文索引」"@
            },
    {
        if self.is_consistent() {
            return "索引一致:SQLite 结构与全文索引自检正常,行数对齐".to_owned();
        }
        let mut problems: Vec<String> = Vec::new();
        if !self.sqlite_ok {
            let list = join(&self.sqlite_messages, ";");
            problems.push("SQLite 结构异常(".to_owned().concat(list.as_str()).concat(")"));
        }
        match &self.fts_message {
            Some(message) => {
                problems.push(
                    "全文索引自检失败(".to_owned().concat(message.as_str()).concat(")"),
                );
            },
            None => {},
        }
        if self.missing_in_fts > 0 {
            problems.push(
                decimal_of(self.missing_in_fts as u64).concat(" 篇文档没有索引行"),
            );
        }
        if self.orphan_in_fts > 0 {
            problems.push(
                decimal_of(self.orphan_in_fts as u64).concat(" 条索引行找不到文档"),
            );
        }
        assert(texts(problems@) =~= findings(*self));
        let list = join(&problems, ",");
        let mut s = "索引不一致:".to_owned();
        s.append(list.as_str());
        s.append(";建议执行「重建全文索引」");
        s
    }
}

/// Whether the full-text table has to be rebuilt: it is marked so, or it is
/// empty although documents were parsed.
pub fn needs_fts_rebuild(pending: Option<&str>, fts_empty: bool, any_parsed: bool) -> (r: bool)
    ensures
        r == (option_str(pending) == Some("1"@) || (fts_empty && any_parsed)),
{
    let marked = match pending {
        Some(value) => same(value, "1"),
        None => false,
    };
    marked || (fts_empty && any_parsed)
}

/// How far the full-text table is rebuilt.
#[derive(Debug, Clone, Copy, PartialEq, Eq, Structural)]
pub struct Rebuild {
    /// The last document that was put in.
    pub last_id: i64,
    pub processed: u64,
    pub total: u64,
}

impl Rebuild {
    /// Nothing was put in yet. A negative number of documents counts as none.
    pub fn start(total: i64) -> (r: Self)
        ensures
            r == (Rebuild {
                last_id: 0,
                processed: 0,
                total: if total > 0 {
                    total as u64
                } else {
                    0
                },
            }),
    {
        Rebuild {
            last_id: 0,
            processed: 0,
            total: if total > 0 {
                total as u64
            } else {
                0
            },
        }
    }

    /// A batch was put in. Tells whether there may be another one.
    pub fn advance(&mut self, last_id: i64, batch: u64) -> (more: bool)
        requires
            old(self).processed + batch <= u64::MAX,
        ensures
            *final(self) == (Rebuild {
                last_id,
                processed: (old(self).processed + batch) as u64,
                total: old(self).total,
            }),
            more == (batch >= PROGRESS_STEP),
    {
        self.last_id = last_id;
        self.processed = self.processed + batch;
        batch >= PROGRESS_STEP
    }
}

/// The one line about the index tells that all is well exactly when it is: any
/// finding shows in it, as far as the numbers are not negative and a failed
/// check of the full-text table comes with a message.
pub proof fn law_findings_explain_inconsistency(report: IntegrityReport)
    requires
        report.missing_in_fts >= 0,
        report.orphan_in_fts >= 0,
        report.fts_ok <==> report.fts_message is None,
    ensures
        report.consistent() <==> findings(report).len() == 0,
{
}

} // verus!
