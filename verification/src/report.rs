//! The summary of a run's report: how many warnings, on how many files, by
//! rule and by severity.
use vstd::prelude::*;

use crate::text::str_eq;

verus! {

/// How serious a warning is.
#[derive(Debug, Clone, Copy, PartialEq, Eq, Structural)]
pub enum Severity {
    Error,
    Warning,
    Info,
}

/// What the summary reads of one warning: its rule and its severity.
#[derive(Debug)]
pub struct WarningFacts {
    pub rule_id: String,
    pub severity: Severity,
}

/// What the summary reads of one file's result: its warnings, and whether
/// it failed to parse.
#[derive(Debug)]
pub struct FileFacts {
    pub warnings: Vec<WarningFacts>,
    pub parse_error: bool,
}

/// Warnings per severity.
#[derive(Debug, Clone, Copy, PartialEq, Eq, Structural)]
pub struct SeverityCounts {
    pub errors: u32,
    pub warnings: u32,
    pub infos: u32,
}

/// The counts a report opens with.
#[derive(Debug)]
pub struct AnalysisSummary {
    pub total: u32,
    pub files_analyzed: u32,
    /// Files with a warning or a parse error.
    pub files_with_warnings: u32,
    /// Warnings per rule id, each rule once, in order of first appearance.
    pub by_rule: Vec<(String, u32)>,
    pub by_severity: SeverityCounts,
}

/// Every warning of `files`, file by file.
pub open spec fn warnings_of(files: Seq<FileFacts>) -> Seq<WarningFacts>
    decreases files.len(),
{
    if files.len() == 0 {
        Seq::empty()
    } else {
        warnings_of(files.drop_last()) + files.last().warnings@
    }
}

/// The files with a warning or a parse error.
pub open spec fn flagged_count(files: Seq<FileFacts>) -> nat
    decreases files.len(),
{
    if files.len() == 0 {
        0
    } else {
        flagged_count(files.drop_last()) + if files.last().warnings.len() > 0 || files.last().parse_error {
            1nat
        } else {
            0nat
        }
    }
}

/// The warnings of `ws` with severity `s`.
pub open spec fn severity_count(ws: Seq<WarningFacts>, s: Severity) -> nat
    decreases ws.len(),
{
    if ws.len() == 0 {
        0
    } else {
        severity_count(ws.drop_last(), s) + if ws.last().severity == s {
            1nat
        } else {
            0nat
        }
    }
}

/// The warnings of `ws` under rule `r`.
pub open spec fn rule_count(ws: Seq<WarningFacts>, r: Seq<char>) -> nat
    decreases ws.len(),
{
    if ws.len() == 0 {
        0
    } else {
        rule_count(ws.drop_last(), r) + if ws.last().rule_id@ == r {
            1nat
        } else {
            0nat
        }
    }
}

proof fn lemma_counts_bounded(ws: Seq<WarningFacts>, r: Seq<char>, s: Severity)
    ensures
        rule_count(ws, r) <= ws.len(),
        severity_count(ws, s) <= ws.len(),
    decreases ws.len(),
{
    if ws.len() > 0 {
        lemma_counts_bounded(ws.drop_last(), r, s);
    }
}

/// The summary of a run over `files`: the warnings in all, the files
/// analyzed, the files with a warning or a parse error, the warnings per
/// rule (each rule once, in order of first appearance) and per severity.
pub fn summarize(files: &Vec<FileFacts>) -> (r: AnalysisSummary)
    requires
        warnings_of(files@).len() <= u32::MAX,
        files.len() <= u32::MAX,
    ensures
        r.total == warnings_of(files@).len(),
        r.files_analyzed == files.len(),
        r.files_with_warnings == flagged_count(files@),
        r.by_severity.errors == severity_count(warnings_of(files@), Severity::Error),
        r.by_severity.warnings == severity_count(warnings_of(files@), Severity::Warning),
        r.by_severity.infos == severity_count(warnings_of(files@), Severity::Info),
        forall|a: int, b: int| 0 <= a < b < r.by_rule.len() ==> r.by_rule@[a].0@ != r.by_rule@[b].0@,
        forall|k: int| 0 <= k < r.by_rule.len() ==> (#[trigger] r.by_rule@[k]).1 == rule_count(warnings_of(files@), r.by_rule@[k].0@),
        forall|x: Seq<char>| rule_count(warnings_of(files@), x) > 0 <==> exists|k: int| 0 <= k < r.by_rule.len() && #[trigger] r.by_rule@[k].0@ == x,
{
    let ghost all = warnings_of(files@);
    let mut total: u32 = 0;
    let mut flagged: u32 = 0;
    let mut errors: u32 = 0;
    let mut warnings: u32 = 0;
    let mut infos: u32 = 0;
    let mut keys: Vec<String> = Vec::new();
    let mut counts: Vec<u32> = Vec::new();
    let mut i: usize = 0;
    assert(files@.subrange(0, 0) =~= Seq::<FileFacts>::empty());
    while i < files.len()
        invariant
            i <= files.len(),
            all == warnings_of(files@),
            all.len() <= u32::MAX,
            files.len() <= u32::MAX,
            warnings_of(files@.subrange(0, i as int)).len() <= all.len(),
            total == warnings_of(files@.subrange(0, i as int)).len(),
            flagged == flagged_count(files@.subrange(0, i as int)),
            flagged <= i,
            errors == severity_count(warnings_of(files@.subrange(0, i as int)), Severity::Error),
            warnings == severity_count(warnings_of(files@.subrange(0, i as int)), Severity::Warning),
            infos == severity_count(warnings_of(files@.subrange(0, i as int)), Severity::Info),
            keys.len() == counts.len(),
            forall|a: int, b: int| 0 <= a < b < keys.len() ==> keys@[a]@ != keys@[b]@,
            forall|k: int| 0 <= k < keys.len() ==> #[trigger] counts@[k] == rule_count(warnings_of(files@.subrange(0, i as int)), keys@[k]@),
            forall|x: Seq<char>| rule_count(warnings_of(files@.subrange(0, i as int)), x) > 0 <==> exists|k: int| 0 <= k < keys.len() && #[trigger] keys@[k]@ == x,
        decreases files.len() - i,
    {
        let ghost pre = files@.subrange(0, i as int);
        let ghost pre1 = files@.subrange(0, i + 1);
        assert(pre1.drop_last() =~= pre);
        let f = &files[i];
        proof {
            lemma_prefix_len(files@, i as int + 1);
        }
        let mut j: usize = 0;
        while j < f.warnings.len()
            invariant
                j <= f.warnings.len(),
                f == files@[i as int],
                i < files.len(),
                pre == files@.subrange(0, i as int),
                warnings_of(pre).len() + f.warnings.len() <= u32::MAX,
                total == (warnings_of(pre) + f.warnings@.subrange(0, j as int)).len(),
                errors == severity_count(warnings_of(pre) + f.warnings@.subrange(0, j as int), Severity::Error),
                warnings == severity_count(warnings_of(pre) + f.warnings@.subrange(0, j as int), Severity::Warning),
                infos == severity_count(warnings_of(pre) + f.warnings@.subrange(0, j as int), Severity::Info),
                keys.len() == counts.len(),
                forall|a: int, b: int| 0 <= a < b < keys.len() ==> keys@[a]@ != keys@[b]@,
                forall|k: int| 0 <= k < keys.len() ==> #[trigger] counts@[k] == rule_count(warnings_of(pre) + f.warnings@.subrange(0, j as int), keys@[k]@),
                forall|x: Seq<char>| rule_count(warnings_of(pre) + f.warnings@.subrange(0, j as int), x) > 0 <==> exists|k: int|
                    0 <= k < keys.len() && #[trigger] keys@[k]@ == x,
            decreases f.warnings.len() - j,
        {
            let ghost done = warnings_of(pre) + f.warnings@.subrange(0, j as int);
            let ghost done1 = warnings_of(pre) + f.warnings@.subrange(0, j + 1);
            assert(done1.drop_last() =~= done);
            assert(done1.last() == f.warnings@[j as int]);
            let w = &f.warnings[j];
            proof {
                lemma_counts_bounded(done, w.rule_id@, w.severity);
            }
            total = total + 1;
            match w.severity {
                Severity::Error => errors = errors + 1,
                Severity::Warning => warnings = warnings + 1,
                Severity::Info => infos = infos + 1,
            }
            let mut k: usize = 0;
            let mut at: Option<usize> = None;
            while k < keys.len()
                invariant
                    k <= keys.len(),
                    at matches Some(p) ==> p < keys.len() && keys@[p as int]@ == w.rule_id@,
                    at is None ==> forall|q: int| 0 <= q < k ==> keys@[q]@ != w.rule_id@,
                decreases keys.len() - k,
            {
                if at.is_none() && str_eq(keys[k].as_str(), w.rule_id.as_str()) {
                    at = Some(k);
                }
                k = k + 1;
            }
            let ghost c0 = counts@;
            let ghost k0 = keys@;
            match at {
                Some(p) => {
                    let c = counts[p];
                    counts.set(p, c + 1);
                },
                None => {
                    keys.push(w.rule_id.clone());
                    counts.push(1);
                },
            }
            proof {
                assert forall|a: int, b: int| 0 <= a < b < keys.len() implies keys@[a]@ != keys@[b]@ by {
                    if b == k0.len() {
                        assert(keys@[a] == k0[a]);
                    }
                }
                assert forall|q: int| 0 <= q < keys.len() implies #[trigger] counts@[q] == rule_count(done1, keys@[q]@) by {
                    if q < k0.len() {
                        assert(keys@[q] == k0[q]);
                    }
                }
                assert forall|x: Seq<char>| rule_count(done1, x) > 0 <==> exists|q: int| 0 <= q < keys.len() && #[trigger] keys@[q]@ == x by {
                    if rule_count(done1, x) > 0 && x != w.rule_id@ {
                        let q = choose|q: int| 0 <= q < k0.len() && #[trigger] k0[q]@ == x;
                        assert(keys@[q] == k0[q]);
                    }
                    if rule_count(done1, x) > 0 && x == w.rule_id@ {
                        match at {
                            Some(p) => {
                                assert(keys@[p as int]@ == x);
                            },
                            None => {
                                assert(keys@[k0.len() as int]@ == x);
                            },
                        }
                    }
                    if exists|q: int| 0 <= q < keys.len() && #[trigger] keys@[q]@ == x {
                        let q = choose|q: int| 0 <= q < keys.len() && #[trigger] keys@[q]@ == x;
                        if q < k0.len() {
                            assert(keys@[q] == k0[q]);
                            assert(rule_count(done, x) > 0);
                        }
                    }
                }
            }
            j = j + 1;
        }
        assert(f.warnings@.subrange(0, f.warnings.len() as int) =~= f.warnings@);
        assert(warnings_of(pre1) == warnings_of(pre) + f.warnings@);
        if f.warnings.len() > 0 || f.parse_error {
            flagged = flagged + 1;
        }
        i = i + 1;
    }
    assert(files@.subrange(0, files.len() as int) =~= files@);
    let mut by_rule: Vec<(String, u32)> = Vec::new();
    let mut k: usize = 0;
    while k < keys.len()
        invariant
            k <= keys.len(),
            keys.len() == counts.len(),
            by_rule.len() == k,
            forall|q: int| 0 <= q < k ==> #[trigger] by_rule@[q].0@ == keys@[q]@ && by_rule@[q].1 == counts@[q],
        decreases keys.len() - k,
    {
        by_rule.push((keys[k].clone(), counts[k]));
        k = k + 1;
    }
    proof {
        assert forall|x: Seq<char>| rule_count(warnings_of(files@), x) > 0 <==> exists|q: int| 0 <= q < by_rule.len() && #[trigger] by_rule@[q].0@ == x by {
            if rule_count(warnings_of(files@), x) > 0 {
                let q = choose|q: int| 0 <= q < keys.len() && #[trigger] keys@[q]@ == x;
                assert(by_rule@[q].0@ == x);
            }
            if exists|q: int| 0 <= q < by_rule.len() && #[trigger] by_rule@[q].0@ == x {
                let q = choose|q: int| 0 <= q < by_rule.len() && #[trigger] by_rule@[q].0@ == x;
                assert(keys@[q]@ == x);
            }
        }
    }
    let r = AnalysisSummary {
        total,
        files_analyzed: files.len() as u32,
        files_with_warnings: flagged,
        by_rule,
        by_severity: SeverityCounts { errors, warnings, infos },
    };
    proof {
        assert forall|x: Seq<char>| rule_count(warnings_of(files@), x) > 0 <==> exists|q: int|
            0 <= q < r.by_rule.len() && #[trigger] r.by_rule@[q].0@ == x by {
            if rule_count(warnings_of(files@), x) > 0 {
                let q = choose|q: int| 0 <= q < keys.len() && #[trigger] keys@[q]@ == x;
                assert(r.by_rule@[q].0@ == x);
            }
        }
    }
    r
}

/// A prefix holds no more warnings than the whole list, and the next file's
/// warnings fit after it.
proof fn lemma_prefix_len(files: Seq<FileFacts>, n: int)
    requires
        0 <= n <= files.len(),
    ensures
        warnings_of(files.subrange(0, n)).len() <= warnings_of(files).len(),
        n > 0 ==> warnings_of(files.subrange(0, n)) == warnings_of(files.subrange(0, n - 1)) + files[n - 1].warnings@,
    decreases files.len() - n,
{
    if n > 0 {
        assert(files.subrange(0, n).drop_last() =~= files.subrange(0, n - 1));
    }
    if n < files.len() {
        lemma_prefix_len(files, n + 1);
        assert(files.subrange(0, n + 1).drop_last() =~= files.subrange(0, n));
    } else {
        assert(files.subrange(0, n) =~= files);
    }
}

} // verus!
