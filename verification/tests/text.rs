use std::sync::Arc;

use lib::cfg::{BasicBlock, Terminator, CFG};
use lib::expr::{Expr, Prim};
use lib::source_range::{compute_line_starts, offset_to_range, FileId, FileTable, SourceMap};
use lib::text::{decimal_string, find_char, str_eq, str_lt};
use lib::types::ExprId;

#[test]
fn text_helpers_compare_and_search_by_character() {
    assert!(str_eq("abc", "abc"));
    assert!(!str_eq("abc", "abd"));
    assert!(str_lt("ab", "abc"));
    assert!(str_lt("abc", "abd"));
    assert!(!str_lt("b", "abc"));
    assert!(!str_lt("x", "x"));
    assert_eq!(find_char("W@/a.tsx", '@'), Some(1));
    assert_eq!(find_char("W", '@'), None);
    assert_eq!(decimal_string(0), "0");
    assert_eq!(decimal_string(4021), "4021");
}

#[test]
fn line_starts_map_offsets_to_one_based_lines_and_columns() {
    let src = "ab\ncd\n\nx";
    assert_eq!(compute_line_starts(src), vec![0, 3, 6, 7]);
    let starts = compute_line_starts(src);
    let r = offset_to_range(&starts, 4, FileId(2));
    assert_eq!((r.file, r.line, r.col), (FileId(2), 2, 1));
    let map = SourceMap::new(src, FileId(2));
    let s = map.span_at(7).unwrap();
    assert_eq!((s.line, s.col), (4, 0));
    assert!(SourceMap::empty().span_at(0).is_none());
}

#[test]
fn file_ids_are_interned_once() {
    let mut t = FileTable::new();
    let a = t.intern("/a.ts".to_string());
    let b = t.intern("/b.ts".to_string());
    assert_eq!(t.intern("/a.ts".to_string()), a);
    assert_ne!(a, b);
    assert_eq!(t.len(), 2);
    assert_eq!(t.path(b).map(String::as_str), Some("/b.ts"));
    assert!(t.path(FileId(9)).is_none());
}

#[test]
fn expressions_peel_annotations_and_spot_calls() {
    let inner = Expr::Var("x".into());
    let wrapped = Expr::TSAnnotated(Box::new(Expr::TSAnnotated(Box::new(inner))));
    assert!(matches!(wrapped.peel_ts(), Expr::Var(v) if v == "x"));
    assert!(wrapped.is_call_free());
    let call = Expr::BinOp {
        op: lib::expr::BinOp::Add,
        lhs: Box::new(Expr::Lit(Prim::Int(1))),
        rhs: Box::new(Expr::Call { fn_: Box::new(Expr::Var("f".into())), args: vec![] }),
    };
    assert!(!call.is_call_free());
    let body = CFG { entry: 0, blocks: vec![BasicBlock { id: 0, stmts: vec![], term: Terminator::Return(call) }], edges: vec![] };
    let lambda = Expr::FnLit { id: ExprId(0), params: vec![], body_cfg: Arc::new(body) };
    assert!(lambda.is_call_free(), "a function literal's body is not crossed");
}

#[test]
fn interning_a_present_path_gives_its_first_id_back() {
    let mut t = FileTable::new();
    let a = t.intern("/a.tsx".to_string());
    let b = t.intern("/b.tsx".to_string());
    assert_eq!(t.intern("/a.tsx".to_string()), a);
    assert_eq!(t.intern("/b.tsx".to_string()), b);
    assert_eq!(a, FileId(0));
    assert_eq!(b, FileId(1));
    assert_eq!(t.len(), 2);
}

#[test]
fn a_span_lookup_agrees_with_the_free_conversion() {
    let src = "ab\ncd\n\nef";
    let starts = compute_line_starts(src);
    let map = SourceMap::new(src, FileId(3));
    for off in 0..(src.len() as u32) {
        assert_eq!(map.span_at(off), Some(offset_to_range(&starts, off, FileId(3))));
    }
    assert_eq!(SourceMap::empty().span_at(2), None);
}
