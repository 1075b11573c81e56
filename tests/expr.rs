use lalr1::common::{ActiveRule, Parsable, Symbol};
use lalr1::emit::{parser_code, state_code, usize_text};
use lalr1::generator::{create_states, plan_state, PartialCall};
use lalr1::machine::ParseError;
use lalr1::parser::Parser;
use lalr1::tables::{TableEntry, Tables};

type Sem = fn(Vec<Symbol>, bool, i64) -> i64;

const E: usize = 0xffff;
const ACC: usize = 0xfffe;
const END: usize = 1100;
const TOK_INT: usize = 1001;
const TOK_IDENT: usize = 1003;

const SEM_START: usize = 100;
const SEM_BRACKETS: usize = 101;
const SEM_ADD: usize = 200;
const SEM_SUB: usize = 201;
const SEM_MUL: usize = 202;
const SEM_INT: usize = 401;
const SEM_IDENT: usize = 410;

fn entry(id: usize, index: usize, label: &str) -> TableEntry {
    TableEntry { id, index, label: label.to_string() }
}

fn rows(r: &[&[usize]]) -> Vec<Vec<usize>> {
    r.iter().map(|x| x.to_vec()).collect()
}

fn err_rows(n: usize, w: usize) -> Vec<Vec<usize>> {
    vec![vec![E; w]; n]
}

// Grammar:
//   r0 start -> expr
//   r1 expr -> expr + expr      r2 expr -> expr - expr     r3 expr -> expr * expr
//   r4 expr -> ( expr )         r5 expr -> INT              r6 expr -> IDENT
// with '*' above '+' and '-', all left-associative.
// Terminal columns: END + - * ( ) INT IDENT; nonterminal columns: start expr.
fn expr_tables(with_partials: bool) -> Tables {
    let shift = rows(&[
        &[E, E, E, E, 3, E, 4, 5],
        &[E, E, E, E, E, E, E, E],
        &[E, 6, 7, 8, E, E, E, E],
        &[E, E, E, E, 3, E, 4, 5],
        &[E, E, E, E, E, E, E, E],
        &[E, E, E, E, E, E, E, E],
        &[E, E, E, E, 3, E, 4, 5],
        &[E, E, E, E, 3, E, 4, 5],
        &[E, E, E, E, 3, E, 4, 5],
        &[E, 6, 7, 8, E, 13, E, E],
        &[E, E, E, 8, E, E, E, E],
        &[E, E, E, 8, E, E, E, E],
        &[E, E, E, E, E, E, E, E],
        &[E, E, E, E, E, E, E, E],
    ]);
    let reduce = rows(&[
        &[E, E, E, E, E, E, E, E],
        &[ACC, E, E, E, E, E, E, E],
        &[0, E, E, E, E, E, E, E],
        &[E, E, E, E, E, E, E, E],
        &[5, 5, 5, 5, E, 5, E, E],
        &[6, 6, 6, 6, E, 6, E, E],
        &[E, E, E, E, E, E, E, E],
        &[E, E, E, E, E, E, E, E],
        &[E, E, E, E, E, E, E, E],
        &[E, E, E, E, E, E, E, E],
        &[1, 1, 1, E, E, 1, E, E],
        &[2, 2, 2, E, E, 2, E, E],
        &[3, 3, 3, 3, E, 3, E, E],
        &[4, 4, 4, 4, E, 4, E, E],
    ]);
    let jump = rows(&[
        &[1, 2],
        &[E, E],
        &[E, E],
        &[E, 9],
        &[E, E],
        &[E, E],
        &[E, 10],
        &[E, 11],
        &[E, 12],
        &[E, E],
        &[E, E],
        &[E, E],
        &[E, E],
        &[E, E],
    ]);
    let mut partials_rule_term = err_rows(14, 8);
    let mut partials_matchlen_term = err_rows(14, 8);
    let mut partials_rule_nonterm = err_rows(14, 2);
    let mut partials_matchlen_nonterm = err_rows(14, 2);
    let mut partials_lhs_nonterm = err_rows(14, 2);
    if with_partials {
        for (col, rule) in [(1usize, 1usize), (2, 2), (3, 3)] {
            partials_rule_term[2][col] = rule;
            partials_matchlen_term[2][col] = 1;
        }
        for (state, rule) in [(6usize, 1usize), (7, 2), (8, 3)] {
            partials_rule_nonterm[state][1] = rule;
            partials_matchlen_nonterm[state][1] = 3;
            partials_lhs_nonterm[state][1] = 20;
        }
    }
    Tables {
        shift,
        reduce,
        jump,
        num_rhs_syms: vec![1, 3, 3, 3, 3, 1, 1],
        lhs_idx: vec![0, 1, 1, 1, 1, 1, 1],
        term_idx: vec![
            entry(END, 0, "END"),
            entry(43, 1, "+"),
            entry(45, 2, "-"),
            entry(42, 3, "*"),
            entry(40, 4, "("),
            entry(41, 5, ")"),
            entry(TOK_INT, 6, "INT"),
            entry(TOK_IDENT, 7, "IDENT"),
        ],
        nonterm_idx: vec![entry(10, 0, "start"), entry(20, 1, "expr")],
        semantic_idx: vec![
            (SEM_START, 0),
            (SEM_ADD, 1),
            (SEM_SUB, 2),
            (SEM_MUL, 3),
            (SEM_BRACKETS, 4),
            (SEM_INT, 5),
            (SEM_IDENT, 6),
        ],
        partials_rule_term,
        partials_rule_nonterm,
        partials_matchlen_term,
        partials_matchlen_nonterm,
        partials_lhs_nonterm,
        err: E,
        acc: ACC,
        start: 0,
        end: END,
    }
}

fn sem_start(args: Vec<Symbol>, done: bool, retval: i64) -> i64 {
    if !done {
        return retval;
    }
    args[0].val
}

fn sem_brackets(args: Vec<Symbol>, done: bool, retval: i64) -> i64 {
    if !done {
        return retval;
    }
    args[1].val
}

fn sem_add(args: Vec<Symbol>, done: bool, retval: i64) -> i64 {
    if !done {
        return retval;
    }
    args[0].val + args[2].val
}

fn sem_sub(args: Vec<Symbol>, done: bool, retval: i64) -> i64 {
    if !done {
        return retval;
    }
    args[0].val - args[2].val
}

fn sem_mul(args: Vec<Symbol>, done: bool, retval: i64) -> i64 {
    if !done {
        return retval;
    }
    args[0].val * args[2].val
}

fn sem_zero(_args: Vec<Symbol>, _done: bool, _retval: i64) -> i64 {
    0
}

fn sem_value(args: Vec<Symbol>, done: bool, retval: i64) -> i64 {
    if !done {
        return retval;
    }
    args[0].val
}

fn sem_ident(args: Vec<Symbol>, done: bool, retval: i64) -> i64 {
    if !done {
        return retval;
    }
    match args[0].strval.as_deref() {
        Some("pi") => std::f64::consts::PI.round() as i64,
        Some(name) => {
            println!("Identifier \"{}\" is unknown.", name);
            0
        }
        None => 0,
    }
}

fn semantics() -> Vec<(usize, Sem)> {
    vec![
        (SEM_START, sem_start as Sem),
        (SEM_BRACKETS, sem_brackets as Sem),
        (SEM_ADD, sem_add as Sem),
        (SEM_SUB, sem_sub as Sem),
        (SEM_MUL, sem_mul as Sem),
        (SEM_INT, sem_value as Sem),
        (SEM_IDENT, sem_ident as Sem),
    ]
}

fn tok(id: usize) -> Symbol {
    Symbol { is_term: true, id, val: 0, strval: Some(String::new()) }
}

fn num(v: i64) -> Symbol {
    Symbol { is_term: true, id: TOK_INT, val: v, strval: Some(v.to_string()) }
}

fn ident(name: &str) -> Symbol {
    Symbol { is_term: true, id: TOK_IDENT, val: 0, strval: Some(name.to_string()) }
}

fn end() -> Symbol {
    Symbol { is_term: true, id: END, val: 0, strval: Some("<end>".to_string()) }
}

fn parser_with(tables: Tables, sems: &[(usize, Sem)], partials: bool) -> Parser<Sem> {
    let mut p: Parser<Sem> = Parser::new(tables);
    p.set_semantics(sems);
    p.set_partials(partials);
    p
}

fn run(input: Vec<Symbol>, partials: bool) -> (bool, Option<i64>, Option<ParseError>) {
    let mut p = parser_with(expr_tables(true), &semantics(), partials);
    p.set_input(&input);
    let ok = p.parse();
    (ok, p.get_top_symbol().map(|s| s.val), p.get_error())
}

#[test]
fn add_two_ints() {
    let (ok, val, _) = run(vec![num(123), tok(43), num(987), end()], true);
    assert!(ok);
    assert_eq!(val, Some(1110));
}

#[test]
fn mul_binds_tighter() {
    let (ok, val, _) = run(vec![num(2), tok(42), num(3), tok(43), num(4), end()], true);
    assert!(ok);
    assert_eq!(val, Some(10));
}

#[test]
fn brackets_group() {
    let input = vec![tok(40), num(2), tok(43), num(3), tok(41), tok(42), num(4), end()];
    let (ok, val, _) = run(input, true);
    assert!(ok);
    assert_eq!(val, Some(20));
}

#[test]
fn sub_is_left_associative() {
    let (ok, val, _) = run(vec![num(5), tok(45), num(2), tok(45), num(1), end()], true);
    assert!(ok);
    assert_eq!(val, Some(2));
}

#[test]
fn dangling_operator_fails() {
    let (ok, _, e) = run(vec![num(1), tok(43), end()], true);
    assert!(!ok);
    assert!(matches!(e, Some(ParseError::NoAction { .. })));
}

#[test]
fn identifier_pi() {
    let (ok, val, _) = run(vec![ident("pi"), end()], true);
    assert!(ok);
    assert_eq!(val, Some(3));
}

#[test]
fn unknown_identifier_is_zero() {
    let (ok, val, _) = run(vec![ident("x"), end()], true);
    assert!(ok);
    assert_eq!(val, Some(0));
}

#[test]
fn partials_do_not_change_value() {
    let inputs = vec![
        vec![num(2), tok(42), num(3), tok(43), num(4), end()],
        vec![tok(40), num(2), tok(43), num(3), tok(41), tok(42), num(4), end()],
        vec![num(5), tok(45), num(2), tok(45), num(1), end()],
    ];
    for input in inputs {
        let on = run(input.clone(), true);
        let off = run(input, false);
        assert!(on.0 && off.0);
        assert_eq!(on.1, off.1);
    }
}

#[test]
fn reset_then_parse_again() {
    let mut p = parser_with(expr_tables(true), &semantics(), true);
    p.set_input(&[num(7), tok(42), num(6), end()]);
    assert!(p.parse());
    let first = p.get_top_symbol().map(|s| s.val);
    p.reset();
    assert!(p.get_top_symbol().is_none());
    assert!(p.parse());
    assert_eq!(p.get_top_symbol().map(|s| s.val), first);
    assert_eq!(first, Some(42));
}

#[test]
fn end_only_is_rejected_without_empty_start() {
    let (ok, _, e) = run(vec![end()], true);
    assert!(!ok);
    assert_eq!(e, Some(ParseError::NoAction { state: 0, lookahead: 0 }));
}

#[test]
fn end_only_is_accepted_with_empty_start() {
    // start -> (empty); state 0 reduces on END, state 1 accepts.
    let mut t = expr_tables(false);
    t.reduce[0][0] = 0;
    t.num_rhs_syms[0] = 0;
    let mut p = parser_with(t, &semantics(), false);
    p.set_semantics(&[(SEM_START, sem_zero as Sem)]);
    p.set_input(&[end()]);
    assert!(p.parse());
    let top = p.get_top_symbol().unwrap();
    assert!(!top.is_term);
    assert_eq!(top.id, 10);
    assert_eq!(top.val, 0);
}

#[test]
fn missing_end_fails() {
    let (ok, _, e) = run(vec![num(1), tok(43), num(2)], true);
    assert!(!ok);
    assert_eq!(e, Some(ParseError::MissingInput));
    let (ok, _, e) = run(vec![], true);
    assert!(!ok);
    assert_eq!(e, Some(ParseError::MissingInput));
}

#[test]
fn conflict_fails() {
    let mut t = expr_tables(true);
    t.reduce[10][3] = 1;
    let mut p = parser_with(t, &semantics(), true);
    p.set_input(&[num(1), tok(43), num(2), tok(42), num(3), end()]);
    assert!(!p.parse());
    assert_eq!(p.get_error(), Some(ParseError::Conflict { state: 10, lookahead: 3 }));
}

#[test]
fn zero_propagates() {
    let mut sems = semantics();
    sems.push((SEM_MUL, sem_zero as Sem));
    let mut p = parser_with(expr_tables(true), &sems, false);
    p.set_input(&[num(2), tok(42), num(3), tok(42), num(4), end()]);
    assert!(p.parse());
    assert_eq!(p.get_top_symbol().unwrap().val, 0);
}

#[test]
fn unknown_terminal_fails() {
    let (ok, _, e) = run(vec![tok(47), end()], true);
    assert!(!ok);
    assert_eq!(e, Some(ParseError::UnknownTerminal { id: 47 }));
}

#[test]
fn missing_partial_callback_fails() {
    let sems: Vec<(usize, Sem)> = semantics().into_iter().filter(|s| s.0 != SEM_ADD).collect();
    let mut p = parser_with(expr_tables(true), &sems, true);
    p.set_input(&[num(1), tok(43), num(2), end()]);
    assert!(!p.parse());
    assert_eq!(p.get_error(), Some(ParseError::MissingSemantic { rule_id: SEM_ADD }));
    p.set_partials(false);
    assert!(p.parse());
    assert_eq!(p.get_top_symbol().unwrap().val, 0);
}

#[test]
fn reduction_pushes_nonterminal() {
    let mut p = parser_with(expr_tables(true), &semantics(), false);
    p.set_input(&[num(4), end()]);
    assert!(p.parse());
    let top = p.get_top_symbol().unwrap();
    assert!(!top.is_term);
    assert_eq!(top.id, 10);
    assert!(top.strval.is_none());
    assert_eq!(top.val, 4);
}

#[test]
fn active_rule_starts_empty() {
    let r = ActiveRule::new();
    assert_eq!(r.seen_tokens, 0);
    assert_eq!(r.handle, -1);
    assert_eq!(r.retval, 0);
}

#[test]
fn end_id_comes_from_tables() {
    let p: Parser<Sem> = Parser::new(expr_tables(false));
    assert_eq!(p.get_end_id(), END);
}

#[test]
fn plan_of_operator_state() {
    let t = expr_tables(true);
    let p = plan_state(&t, 2, true).unwrap();
    assert_eq!(p.state, 2);
    assert!(p.has_shift);
    assert!(!p.has_jump);
    let shifted: Vec<(usize, usize)> = p.shifts.iter().map(|c| (c.term.id, c.next_state)).collect();
    assert_eq!(shifted, vec![(43, 6), (45, 7), (42, 8)]);
    assert_eq!(p.shifts[0].term.label, "+");
    assert_eq!(p.shifts[0].partial, Some(PartialCall { rule_id: SEM_ADD, len: 1 }));
    assert_eq!(p.shifts[2].partial, Some(PartialCall { rule_id: SEM_MUL, len: 1 }));
    assert_eq!(p.reduces.len(), 1);
    assert_eq!(p.reduces[0].rule, 0);
    assert_eq!(p.reduces[0].rule_id, SEM_START);
    assert_eq!(p.reduces[0].num_rhs, 1);
    assert_eq!(p.reduces[0].lhs_id, 10);
    let ids: Vec<usize> = p.reduces[0].terms.iter().map(|c| c.id).collect();
    assert_eq!(ids, vec![END]);
    assert!(p.accepts.is_empty());
    assert!(p.jumps.is_empty());

    let q = plan_state(&t, 2, false).unwrap();
    assert!(q.shifts.iter().all(|c| c.partial.is_none()));
}

#[test]
fn plan_groups_reductions_by_rule() {
    let t = expr_tables(true);
    let p = plan_state(&t, 10, true).unwrap();
    assert_eq!(p.shifts.len(), 1);
    assert_eq!(p.shifts[0].term.id, 42);
    assert_eq!(p.reduces.len(), 1);
    let ids: Vec<usize> = p.reduces[0].terms.iter().map(|c| c.id).collect();
    assert_eq!(ids, vec![END, 43, 45, 41]);
    assert_eq!(p.reduces[0].rule_id, SEM_ADD);
    assert_eq!(p.reduces[0].num_rhs, 3);

    let a = plan_state(&t, 1, true).unwrap();
    assert!(!a.has_shift);
    assert_eq!(a.accepts.len(), 1);
    assert_eq!(a.accepts[0].id, END);
    assert_eq!(a.accepts[0].label, "END");
}

#[test]
fn plan_jumps_with_partials() {
    let t = expr_tables(true);
    let p = plan_state(&t, 0, true).unwrap();
    assert!(p.has_jump);
    let jumps: Vec<(usize, usize)> = p.jumps.iter().map(|j| (j.nonterm.id, j.next_state)).collect();
    assert_eq!(jumps, vec![(10, 1), (20, 2)]);
    assert!(p.jumps.iter().all(|j| j.partial.is_none()));

    let q = plan_state(&t, 6, true).unwrap();
    assert_eq!(q.jumps.len(), 1);
    assert_eq!(q.jumps[0].next_state, 10);
    assert_eq!(q.jumps[0].partial, Some(PartialCall { rule_id: SEM_ADD, len: 3 }));
    let r = plan_state(&t, 6, false).unwrap();
    assert_eq!(r.jumps[0].partial, None);
}

#[test]
fn plans_for_all_states() {
    let t = expr_tables(true);
    let plans = create_states(&t, true).unwrap();
    assert_eq!(plans.len(), 14);
    for (i, p) in plans.iter().enumerate() {
        assert_eq!(p.state, i);
    }
    let reduce_states: Vec<usize> = plans.iter().filter(|p| !p.reduces.is_empty()).map(|p| p.state).collect();
    assert_eq!(reduce_states, vec![2, 4, 5, 10, 11, 12, 13]);
}

#[test]
fn plan_needs_semantic_ids() {
    let mut t = expr_tables(true);
    t.semantic_idx.retain(|e| e.1 != 1);
    assert!(plan_state(&t, 10, true).is_none());
    assert!(create_states(&t, true).is_none());
    assert!(plan_state(&t, 0, true).is_some());
}

#[test]
fn through_the_trait() {
    let mut p: Parser<Sem> = Parser::new(expr_tables(true));
    {
        let q: &mut dyn Parsable<Sem> = &mut p;
        q.set_semantics(&semantics());
        q.set_input(&[num(6), tok(42), num(7), end()]);
        assert!(q.parse());
        assert_eq!(q.get_top_symbol().unwrap().val, 42);
        assert_eq!(q.get_end_id(), END);
        q.reset();
        assert!(q.get_top_symbol().is_none());
    }
}

#[test]
fn table_shape_is_checked() {
    assert!(expr_tables(true).is_well_formed());
    assert!(expr_tables(false).is_well_formed());
    let mut t = expr_tables(true);
    t.shift[3][4] = 14;
    assert!(!t.is_well_formed());
    let mut t = expr_tables(true);
    t.jump[0].pop();
    assert!(!t.is_well_formed());
    let mut t = expr_tables(true);
    t.term_idx[1].id = END;
    assert!(!t.is_well_formed());
    let mut t = expr_tables(true);
    t.err = 3;
    assert!(!t.is_well_formed());
}

static CALLS: std::sync::Mutex<Vec<(usize, bool, i64)>> = std::sync::Mutex::new(Vec::new());

fn record(args: &[Symbol], done: bool, retval: i64) {
    CALLS.lock().unwrap().push((args.len(), done, retval));
}

fn rec_add(args: Vec<Symbol>, done: bool, retval: i64) -> i64 {
    record(&args, done, retval);
    if done {
        args[0].val + args[2].val + retval
    } else {
        retval + 1
    }
}

fn rec_value(args: Vec<Symbol>, done: bool, retval: i64) -> i64 {
    record(&args, done, retval);
    args[0].val
}

fn recorded_run(partials: bool) -> (bool, i64, Vec<(usize, bool, i64)>) {
    CALLS.lock().unwrap().clear();
    let sems: Vec<(usize, Sem)> = vec![
        (SEM_START, rec_value as Sem),
        (SEM_INT, rec_value as Sem),
        (SEM_ADD, rec_add as Sem),
    ];
    let mut p = parser_with(expr_tables(true), &sems, partials);
    p.set_input(&[num(1), tok(43), num(2), end()]);
    let ok = p.parse();
    let val = p.get_top_symbol().unwrap().val;
    let calls = CALLS.lock().unwrap().clone();
    (ok, val, calls)
}

#[test]
fn callbacks_once_per_reduction_without_partials() {
    let (ok, val, calls) = recorded_run(false);
    assert!(ok);
    assert_eq!(val, 3);
    // INT -> expr, INT -> expr, expr + expr, start -> expr
    assert_eq!(calls, vec![(1, true, 0), (1, true, 0), (3, true, 0), (1, true, 0)]);
}

#[test]
fn partial_calls_thread_the_accumulator() {
    let (ok, val, calls) = recorded_run(true);
    assert!(ok);
    // before shifting '+': on [expr], then on [expr, '+']; before the jump
    // on the second expr: on [expr, '+', expr]; then the reduction with the
    // accumulator of three partial calls
    assert_eq!(
        calls,
        vec![
            (1, true, 0),
            (1, false, 0),
            (2, false, 1),
            (1, true, 0),
            (3, false, 2),
            (3, true, 3),
            (1, true, 0),
        ]
    );
    assert_eq!(val, 6);
}

#[test]
fn inconsistent_tables_fail() {
    let mut t = expr_tables(true);
    t.jump[0][1] = E;
    let mut p = parser_with(t, &semantics(), false);
    p.set_input(&[num(1), end()]);
    assert!(!p.parse());
    assert_eq!(p.get_error(), Some(ParseError::InvalidTable));

    let mut t = expr_tables(true);
    t.semantic_idx.retain(|e| e.1 != 5);
    let mut p = parser_with(t, &semantics(), false);
    p.set_input(&[num(1), end()]);
    assert!(!p.parse());
    assert_eq!(p.get_error(), Some(ParseError::InvalidTable));
}

#[test]
fn decimal_text() {
    assert_eq!(usize_text(0), "0");
    assert_eq!(usize_text(7), "7");
    assert_eq!(usize_text(1234), "1234");
    assert_eq!(usize_text(1000), "1000");
}

#[test]
fn accepting_state_procedure() {
    let t = expr_tables(true);
    let p = plan_state(&t, 1, true).unwrap();
    let expected = "\tfn state_1(&mut self)\n\t{\n\t\tlet sym_id : usize = self.lookahead.as_ref().unwrap().id;\n\t\tmatch sym_id\n\t\t{\n\t\t\t// END\n\t\t\t1100 => self.accepted = true,\n\t\t\t_ => self.error_term(1, sym_id),\n\t\t}\n\t\tif !self.accepted && !self.failed\n\t\t{\n\t\t\tself.dist_to_jump -= 1;\n\t\t}\n\t}\n\n";
    assert_eq!(state_code(&p, 14), expected);
    assert!(!state_code(&p, 2).ends_with("\n\n"));
}

#[test]
fn operator_state_procedure() {
    let t = expr_tables(true);
    let p = plan_state(&t, 10, true).unwrap();
    let code = state_code(&p, 14);
    assert!(code.contains("\t\t\t42 => // *\n\t\t\t{\n\t\t\t\tnext_state = Some(Parser::state_8);\n"));
    assert!(code.contains("\t\t\t// END | + | - | )\n\t\t\t1100 | 43 | 45 | 41 => self.apply_rule(200, 3, 20),\n"));
    assert!(code.contains("next_state.unwrap()(self);"));
    assert!(!code.contains("while self.dist_to_jump"));
    let q = plan_state(&t, 6, true).unwrap();
    let jumps = state_code(&q, 14);
    assert!(jumps.contains("\t\t\t\t20 => // expr\n\t\t\t\t{\n\t\t\t\t\tif self.use_partials\n\t\t\t\t\t{\n\t\t\t\t\t\tself.apply_partial_rule(200, 3, false);\n\t\t\t\t\t}\n\t\t\t\t\tself.state_10();\n"));
}

#[test]
fn whole_parser_source() {
    let t = expr_tables(true);
    let plans = create_states(&t, true).unwrap();
    let with = parser_code(&plans, t.start, true);
    assert!(with.contains("fn state_0(&mut self)"));
    assert!(with.contains("fn state_13(&mut self)"));
    assert!(with.contains("self.state_0();"));
    assert!(with.contains("fn apply_partial_rule("));
    assert!(with.contains("active_rules : HashMap<usize, Vec<ActiveRule>>,"));
    assert!(!with.contains("%%"));
    let plain_plans = create_states(&t, false).unwrap();
    let without = parser_code(&plain_plans, t.start, false);
    assert!(!without.contains("apply_partial_rule"));
    assert!(!without.contains("active_rules"));
    assert!(without.contains("fn state_13(&mut self)"));
}
