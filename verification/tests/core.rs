use lalr1::bitset::BitSet;
use lalr1::grammar::{Grammar, PriorityRow, Production};
use lalr1::first::First;
use lalr1::fsm::work;
use lalr1::lexer::{Lexer, TokenType};

fn prod(lhs: u32, rhs: Vec<u32>) -> Production {
    Production { lhs, rhs, prec: None, act: String::new() }
}

// A -> B c ; B -> b | (empty).  Non-terminals: A=0, B=1, start'=2.
// Terminals: eps=3, eof=4, b=5, c=6.
fn empty_prod_grammar() -> Grammar {
    Grammar {
        nt_num: 3,
        term_num: 4,
        prods: vec![
            prod(2, vec![0]),
            prod(0, vec![1, 6]),
            prod(1, vec![5]),
            prod(1, vec![]),
        ],
        prio: Vec::<PriorityRow>::new(),
        nt_types: vec![String::from("()"), String::from("()"), String::from("()")],
    }
}

#[test]
fn bitset_union_reports_change() {
    let mut a = BitSet::new(8);
    let mut b = BitSet::new(8);
    b.set(3);
    assert!(a.or(&b));
    assert!(!a.or(&b));
    assert!(a.test(3));
    assert!(!a.test(2));
    assert!(a.equals(&b));
}

#[test]
fn bitset_equals_after_union() {
    let mut a = BitSet::new(5);
    let mut b = BitSet::new(5);
    b.set(1);
    a.or(&b);
    assert!(a.equals(&b));
}

#[test]
fn first_of_empty_production() {
    let g = empty_prod_grammar();
    assert!(g.wf_check());
    let f = First::new(&g);
    // FIRST(B) = {b, eps}
    assert!(f.sets[1].test(5));
    assert!(f.sets[1].test(3));
    assert!(!f.sets[1].test(6));
    // FIRST(A) = {b, c}: B can vanish, so c shows through
    assert!(f.sets[0].test(5));
    assert!(f.sets[0].test(6));
    assert!(!f.sets[0].test(3));
}

#[test]
fn collection_of_small_grammar() {
    let g = empty_prod_grammar();
    assert!(g.wf_check());
    let fsm = work(&g, 1000).expect("small grammar fits the budget");
    assert!(fsm.states.len() >= 3);
    assert_eq!(fsm.states.len(), fsm.links.len());
    // state 0 holds the start item and the closure of A's productions
    assert!(fsm.states[0].len() >= 4);
}

#[test]
fn lexer_recognizes_tokens() {
    let mut lx = Lexer::new("if (a) 12 + x;").expect("rules compile");
    let t1 = lx.next().unwrap();
    assert_eq!(t1.ty, TokenType::If);
    assert_eq!(t1.piece, b"if".to_vec());
    assert_eq!(t1.line, 1);
    assert_eq!(t1.col, 0);
    let t2 = lx.next().unwrap();
    assert_eq!(t2.ty, TokenType::LParenthesis);
    let t3 = lx.next().unwrap();
    assert_eq!(t3.ty, TokenType::Identifier);
    assert_eq!(t3.piece, b"a".to_vec());
    let t4 = lx.next().unwrap();
    assert_eq!(t4.ty, TokenType::RParenthesis);
    let t5 = lx.next().unwrap();
    assert_eq!(t5.ty, TokenType::Int);
    assert_eq!(t5.piece, b"12".to_vec());
    let t6 = lx.next().unwrap();
    assert_eq!(t6.ty, TokenType::Add);
    let t7 = lx.next().unwrap();
    assert_eq!(t7.ty, TokenType::Identifier);
    let t8 = lx.next().unwrap();
    assert_eq!(t8.ty, TokenType::Semicolon);
    let t9 = lx.next().unwrap();
    assert_eq!(t9.ty, TokenType::_Eof);
}

#[test]
fn lexer_counts_lines() {
    let mut lx = Lexer::new("a\nbb\n  c").expect("rules compile");
    let t1 = lx.next().unwrap();
    assert_eq!((t1.line, t1.col), (1, 0));
    let t2 = lx.next().unwrap();
    assert_eq!((t2.line, t2.col), (2, 0));
    assert_eq!(t2.piece, b"bb".to_vec());
    let t3 = lx.next().unwrap();
    assert_eq!((t3.line, t3.col), (3, 2));
}

#[test]
fn lexer_reads_string_literals() {
    let mut lx = Lexer::new("\"hi\" x").expect("rules compile");
    let t1 = lx.next().unwrap();
    assert_eq!(t1.ty, TokenType::String);
    let t2 = lx.next().unwrap();
    assert_eq!(t2.ty, TokenType::Identifier);
}

#[test]
fn precedence_lookup() {
    let mut g = empty_prod_grammar();
    g.prio = vec![PriorityRow { assoc: lalr1::grammar::Assoc::Left, terms: vec![5] }];
    assert!(g.wf_check());
    assert_eq!(g.lookup_term_row(5), Some(0));
    assert_eq!(g.lookup_term_row(6), None);
}

#[test]
fn follow_of_empty_production() {
    let g = empty_prod_grammar();
    assert!(g.wf_check());
    let f = lalr1::first::First::new(&g);
    let fo = lalr1::follow::Follow::new(&g, &f);
    // FOLLOW(B) = {c}
    assert!(fo.sets[1].test(6));
    assert!(!fo.sets[1].test(4));
    assert!(!fo.sets[1].test(5));
    // FOLLOW(A) = {eof}, inherited from the synthetic start
    assert!(fo.sets[0].test(4));
    assert!(!fo.sets[0].test(6));
}

#[test]
fn ll_table_of_empty_production() {
    let g = empty_prod_grammar();
    assert!(g.wf_check());
    let f = lalr1::first::First::new(&g);
    let fo = lalr1::follow::Follow::new(&g, &f);
    let ll = lalr1::ll1::LLCtx::new(&g, &f, fo);
    // row B: b -> B->b (production 2), c -> B->eps (production 3)
    assert_eq!(ll.table[1][5], vec![2]);
    assert_eq!(ll.table[1][6], vec![3]);
    // row A: both b and c predict A -> B c (production 1)
    assert_eq!(ll.table[0][5], vec![1]);
    assert_eq!(ll.table[0][6], vec![1]);
    // conflict-free: every cell holds at most one production
    for row in &ll.table {
        for cell in row {
            assert!(cell.len() <= 1);
        }
    }
}

use lalr1::conflict::{resolve, Act, TableEntry};

// E -> E + E | id over one non-terminal, for resolver checks.
// nts: E=0, S'=1; terms: eps=2, eof=3, plus=4, id=5.
fn plus_grammar(assoc: lalr1::grammar::Assoc) -> Grammar {
    Grammar {
        nt_num: 2,
        term_num: 4,
        prods: vec![
            prod(1, vec![0]),
            Production { lhs: 0, rhs: vec![0, 4, 0], prec: None, act: String::new() },
            prod(0, vec![5]),
        ],
        prio: vec![PriorityRow { assoc, terms: vec![4] }],
        nt_types: vec![String::from("()"), String::from("()")],
    }
}

fn one_cell_table(cell: Vec<Act>, terms: usize) -> Vec<TableEntry> {
    let mut act = vec![Vec::new(); terms];
    act[2] = cell; // column of `plus` (terminal offset 2)
    vec![TableEntry { act, goto_: vec![None, None] }]
}

#[test]
fn shift_reduce_left_assoc_reduces() {
    let g = plus_grammar(lalr1::grammar::Assoc::Left);
    assert!(g.wf_check());
    let t = one_cell_table(vec![Act::Shift(3), Act::Reduce(1)], 4);
    let (r, conf) = resolve(&g, t);
    assert_eq!(r[0].act[2], vec![Act::Reduce(1)]);
    assert_eq!(conf.len(), 1);
    assert_eq!((conf[0].state, conf[0].term), (0, 4));
}

#[test]
fn shift_reduce_right_assoc_shifts() {
    let g = plus_grammar(lalr1::grammar::Assoc::Right);
    let t = one_cell_table(vec![Act::Shift(3), Act::Reduce(1)], 4);
    let (r, conf) = resolve(&g, t);
    assert_eq!(r[0].act[2], vec![Act::Shift(3)]);
    assert_eq!(conf.len(), 1);
}

#[test]
fn shift_reduce_no_assoc_drops_both() {
    let g = plus_grammar(lalr1::grammar::Assoc::NoAssoc);
    let t = one_cell_table(vec![Act::Shift(3), Act::Reduce(1)], 4);
    let (r, _) = resolve(&g, t);
    assert_eq!(r[0].act[2], Vec::<Act>::new());
}

#[test]
fn shift_reduce_without_precedence_keeps_shift() {
    // reduce by id-production: no precedence terminal anywhere in it
    let mut g = plus_grammar(lalr1::grammar::Assoc::Left);
    g.prio = Vec::new();
    assert!(g.wf_check());
    let t = one_cell_table(vec![Act::Shift(3), Act::Reduce(2)], 4);
    let (r, conf) = resolve(&g, t);
    assert_eq!(r[0].act[2], vec![Act::Shift(3)]);
    assert_eq!(conf.len(), 1);
}

#[test]
fn reduce_reduce_keeps_earliest() {
    let g = plus_grammar(lalr1::grammar::Assoc::Left);
    let t = one_cell_table(vec![Act::Reduce(2), Act::Reduce(1)], 4);
    let (r, conf) = resolve(&g, t);
    assert_eq!(r[0].act[2], vec![Act::Reduce(1)]);
    assert_eq!(conf.len(), 1);
}

#[test]
fn resolving_resolved_table_is_noop() {
    let g = plus_grammar(lalr1::grammar::Assoc::Left);
    let t = one_cell_table(vec![Act::Shift(3), Act::Reduce(1)], 4);
    let (r1, _) = resolve(&g, t);
    let keep: Vec<Vec<Act>> = r1[0].act.clone();
    let (r2, conf2) = resolve(&g, r1);
    assert_eq!(r2[0].act, keep);
    assert_eq!(conf2.len(), 0);
}

#[test]
fn artifact_packs_resolved_table() {
    let g = plus_grammar(lalr1::grammar::Assoc::Left);
    let t = one_cell_table(vec![Act::Shift(3), Act::Reduce(1)], 4);
    let (r, _) = resolve(&g, t);
    let art = lalr1::codegen::assemble_lalr(&g, &r);
    assert_eq!(art.fsm_size, 1);
    assert_eq!(art.nt_num, 2);
    assert_eq!(art.term_num, 4);
    assert_eq!(art.action[0][2], Act::Reduce(1));
    assert_eq!(art.action[0][0], Act::Error);
    assert_eq!(art.prods[0], (1, 1, None));
    assert_eq!(art.prods[1], (0, 3, Some(0)));
    assert_eq!(art.u_fsm, 8);
}

#[test]
fn min_u_widths() {
    assert_eq!(lalr1::codegen::min_u(0), 8);
    assert_eq!(lalr1::codegen::min_u(256), 8);
    assert_eq!(lalr1::codegen::min_u(257), 16);
    assert_eq!(lalr1::codegen::min_u(65536), 16);
    assert_eq!(lalr1::codegen::min_u(65537), 32);
}

#[test]
fn gather_types_deduplicates() {
    let mut g = empty_prod_grammar();
    g.nt_types = vec![String::from("i32"), String::from("()"), String::from("i32")];
    assert!(g.wf_check());
    let cg = lalr1::codegen::RustCodegen {
        log_token: false,
        log_reduce: false,
        use_unsafe: false,
        show_token_prod: false,
    };
    let (types, ids) = cg.gather_types(&g);
    assert_eq!(types, vec![String::from("i32"), String::from("()")]);
    assert_eq!(ids, vec![0, 1, 0]);
}

#[test]
fn lexer_rejects_unmatched_input() {
    let mut lx = Lexer::new("@").expect("rules compile");
    assert!(lx.next().is_none());
    assert_eq!(lx.pos, 0);
}

#[test]
fn lexer_eof_on_empty_input() {
    let mut lx = Lexer::new("").expect("rules compile");
    let t = lx.next().unwrap();
    assert_eq!(t.ty, TokenType::_Eof);
    assert_eq!((t.line, t.col), (1, 0));
    assert_eq!(t.piece, Vec::<u8>::new());
}
