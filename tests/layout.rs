use lambda_graph::{expr, layout, Atom, Error, GraphCtx, OutputCtx, Screen, Term};

fn render(src: &str, ce: usize, fe: usize) -> String {
    let a = expr(src).expect("parses");
    let screen = layout(&a, ce, fe).ok().expect("lays out");
    text_of(&screen)
}

fn text_of(screen: &Screen) -> String {
    let mut ctx = OutputCtx {
        writer: String::new(),
        has_color: false,
        space: Some(" ".to_string()),
        solid: "x".to_string(),
    };
    screen.print(&mut ctx);
    ctx.writer
}

#[test]
fn identity_diagram() {
    assert_eq!(render("λx.x", 0, 0), "xxx\n x\n");
}

#[test]
fn self_application_under_binder() {
    assert_eq!(render("λx.(x x)", 0, 0), "xxxxx\n x x\n xxx\n x\n");
}

#[test]
fn caret_marks_lambda_too() {
    assert_eq!(render("^x.x", 0, 0), render("λx.x", 0, 0));
    assert_eq!(render("x.x", 0, 0), render("λx.x", 0, 0));
}

#[test]
fn curried_binders_end_together() {
    // λx y. x : both binder lines reach the same column
    let out = render("λx y.x", 0, 0);
    let rows: Vec<&str> = out.lines().collect();
    assert_eq!(rows[0].trim_end().len(), rows[2].trim_end().len());
    assert_eq!(out, "xxx\n x\nxxx\n x\n");
}

#[test]
fn deterministic_layout() {
    let a = expr("λf x.f (f x)").unwrap();
    let s1 = layout(&a, 1, 2).ok().unwrap();
    let s2 = layout(&a, 1, 2).ok().unwrap();
    assert_eq!(text_of(&s1), text_of(&s2));
}

#[test]
fn free_variable_is_reported() {
    let a = expr("λx.y").unwrap();
    match layout(&a, 0, 0) {
        Err(Error::UndefinedTerm(Term(name, at))) => {
            assert_eq!(name, "y");
            assert_eq!(at, 4);
        },
        Ok(_) => panic!("free variable accepted"),
    }
}

#[test]
fn first_free_variable_is_reported() {
    let a = expr("λx.a b").unwrap();
    match layout(&a, 0, 0) {
        Err(Error::UndefinedTerm(Term(name, _))) => assert_eq!(name, "a"),
        Ok(_) => panic!("free variable accepted"),
    }
}

#[test]
fn spacing_units_widen_the_diagram() {
    let plain = render("λx.x x", 0, 0);
    let wide = render("λx.x x", 1, 0);
    assert!(wide.lines().next().unwrap().len() > plain.lines().next().unwrap().len());
    assert_eq!(render("(λx.x) (λy.y)", 0, 1), "xxx  xxx\n x    x\n xxxxxx\n x\n");
}

#[test]
fn graph_ctx_default_matches_layout() {
    let a = expr("λx.x").unwrap();
    let mut ctx = GraphCtx::default();
    assert!(ctx.foo(&a).is_ok());
    assert_eq!(text_of(ctx.screen()), "xxx\n x\n");
    assert_eq!(ctx.call_extra_unit(), 0);
    assert_eq!(ctx.func_extra_unit(), 0);
}

#[test]
fn shadowing_definitions() {
    let a = expr("a := x ; a := y ; a").unwrap();
    assert!(a.is_term());
    match a {
        Atom::Term(t) => assert_eq!(t.0, "y"),
        _ => panic!(),
    }
    let b = expr("a := x ; (a := y ; a) a").unwrap();
    match b {
        Atom::Call(f, x) => {
            match (*f, *x) {
                (Atom::Term(f), Atom::Term(x)) => {
                    assert_eq!(f.0, "y");
                    assert_eq!(x.0, "x");
                },
                _ => panic!(),
            }
        },
        _ => panic!(),
    }
}

#[test]
fn application_is_left_associative() {
    let a = expr("a b c").unwrap();
    assert!(a.is_call());
    match a {
        Atom::Call(f, c) => {
            assert!(f.is_call());
            assert!(c.is_term());
        },
        _ => panic!(),
    }
}

#[test]
fn multi_parameter_abstraction_desugars() {
    let a = expr("λx y.x").unwrap();
    match a {
        Atom::Func(x, b) => {
            assert_eq!(x.0, "x");
            assert!(b.is_func());
        },
        _ => panic!(),
    }
}

#[test]
fn backtick_names_and_comments() {
    let a = expr("# a comment\n`foo` := λz.z ;\n`foo`").unwrap();
    assert!(a.is_func());
    let b = expr("λ`long`.`long`").unwrap();
    match b {
        Atom::Func(t, body) => {
            assert_eq!(t.0, "long");
            assert_eq!(t.1, 2);
            assert!(body.is_term());
        },
        _ => panic!(),
    }
}

#[test]
fn syntax_error_offsets() {
    assert_eq!(expr("(a b").err().unwrap().offset, 4);
    assert_eq!(expr("a )").err().unwrap().offset, 2);
    assert_eq!(expr("a := b c").err().unwrap().offset, 8);
    assert_eq!(expr("").err().unwrap().offset, 0);
    // offsets count bytes: λ takes two
    assert_eq!(expr("λx.").err().unwrap().offset, 4);
}

#[test]
fn name_offsets_are_bytes() {
    let a = expr("λx.λy.x").unwrap();
    match a {
        Atom::Func(x, b) => {
            assert_eq!(x.1, 2);
            match *b {
                Atom::Func(y, _) => assert_eq!(y.1, 6),
                _ => panic!(),
            }
        },
        _ => panic!(),
    }
}

fn render_ctx(src: &str, ce: usize, fe: usize) -> String {
    let a = expr(src).unwrap();
    let mut ctx = GraphCtx::new(ce, fe);
    assert!(ctx.foo(&a).is_ok());
    assert_eq!(ctx.call_extra_unit(), ce);
    assert_eq!(ctx.func_extra_unit(), fe);
    text_of(ctx.screen())
}

#[test]
fn shadowed_binder_canvas() {
    assert_eq!(render_ctx("λx.λx.x", 0, 0), "xxx\n\nxxx\n x\n");
}

#[test]
fn call_spacing_moves_argument() {
    assert_eq!(render_ctx("λx.(x x)", 1, 0), "xxxxxx\n x  x\n xxxx\n x\n");
    assert_eq!(render_ctx("λx.(x x)", 1, 5), render_ctx("λx.(x x)", 1, 0));
}

#[test]
fn func_spacing_moves_after_abstraction() {
    assert_eq!(
        render_ctx("λa.((λy.y) a)", 0, 1),
        "xxxxxxx\n     x\nxxx  x\n x   x\n xxxxx\n x\n"
    );
}

#[test]
fn curried_canvas() {
    assert_eq!(render_ctx("λx y. x", 0, 0), "xxx\n x\nxxx\n x\n");
}

#[test]
fn canvas_only_grows_across_layouts() {
    let a = expr("λx.x").unwrap();
    let b = expr("λx.(x x)").unwrap();
    let mut ctx = GraphCtx::default();
    assert!(ctx.foo(&a).is_ok());
    let first = text_of(ctx.screen());
    let _ = ctx.foo(&b);
    let second = text_of(ctx.screen());
    for (r1, r2) in first.lines().zip(second.lines()) {
        for (i, c) in r1.chars().enumerate() {
            if c == 'x' {
                assert_eq!(r2.chars().nth(i), Some('x'));
            }
        }
    }
}

#[test]
fn atoms_compare_by_structure_and_text() {
    let a = expr("a := x ; a := y ; a").unwrap();
    assert!(a == Atom::Term(Term("y".to_string(), 100)));
    assert!(expr("λx.x").unwrap() == expr("  x . x").unwrap());
    assert!(expr("λx.x").unwrap() != expr("λy.y").unwrap());
}
