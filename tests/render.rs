use lambda_graph::{expr, layout_fits, max_to, Atom};

#[test]
fn raw_form_parenthesises_everything() {
    assert_eq!(expr("λx y.x y").unwrap().to_raw(), "(λx.(λy.(xy)))");
    assert_eq!(expr("a b c").unwrap().to_raw(), "((ab)c)");
    assert_eq!(expr("x").unwrap().to_raw(), "x");
}

#[test]
fn raw_form_reparses_to_same_shape() {
    for src in ["λx.x", "λf x.f (f x)", "(λx.x x) (λx.x x)", "a := λz.z ; a a"] {
        let a = expr(src).unwrap();
        let raw = a.to_raw();
        let b = expr(&raw).unwrap();
        assert_eq!(b.to_raw(), raw);
    }
}

#[test]
fn simple_form_drops_needless_parens() {
    assert_eq!(expr("λx y.x y").unwrap().to_simple(), "(λx.λy.xy)");
    assert_eq!(expr("a b c").unwrap().to_simple(), "(abc)");
    assert_eq!(expr("a (b c)").unwrap().to_simple(), "(a(bc))");
}

#[test]
fn simple_levels() {
    let a = expr("λx.x").unwrap();
    assert!(!a.simple(0));
    assert!(!a.simple(1));
    assert!(a.simple(2));
    let b = expr("a b").unwrap();
    assert!(!b.simple(2));
    assert!(b.simple(3));
    assert!(!expr("(a b) c").unwrap().simple(3));
    assert!(expr("(a b) c").unwrap().simple(5));
}

#[test]
fn pretty_form_indents() {
    let a = expr("λx.x").unwrap();
    assert_eq!(a.to_pretty(None), "(λx.x)");
    assert_eq!(a.to_pretty(Some(1)), "(λx.\n  x\n)");
    let b = expr("a b").unwrap();
    assert_eq!(b.to_pretty(Some(0)), "(\n  a\n  b\n)");
}

#[test]
fn node_counts() {
    let a = expr("λx.x x").unwrap();
    assert_eq!(a.size_upto(100), 4);
    assert_eq!(a.size_upto(2), 2);
    assert_eq!(a.size_upto(0), 0);
}

#[test]
fn fits_check() {
    let a = expr("λx.x").unwrap();
    assert!(layout_fits(&a, 0, 0));
    assert!(!layout_fits(&a, usize::MAX, 0));
    assert!(!layout_fits(&a, usize::MAX / 2, usize::MAX / 2));
}

#[test]
fn max_to_raises_only() {
    let mut a: usize = 3;
    max_to(&mut a, 2);
    assert_eq!(a, 3);
    max_to(&mut a, 7);
    assert_eq!(a, 7);
}

#[test]
fn variant_tests() {
    let a = expr("λx.x").unwrap();
    assert!(a.is_func() && !a.is_call() && !a.is_term());
    let c = a.clone();
    assert_eq!(c.to_raw(), a.to_raw());
    match c {
        Atom::Func(t, _) => assert!(t == lambda_graph::Term("x".to_string(), 99)),
        _ => panic!(),
    }
}

#[test]
fn atom_from_term() {
    let a = Atom::from(lambda_graph::Term("q".to_string(), 3));
    assert!(a.is_term());
    assert_eq!(a.to_raw(), "q");
}

#[test]
fn nested_binder_reaches_past_inner_one() {
    // the outer binder's line is at least as long as the inner one's
    let a = expr("λx.x (λy.y)").unwrap();
    let s = lambda_graph::layout(&a, 0, 0).ok().unwrap();
    let mut ctx = lambda_graph::OutputCtx {
        writer: String::new(),
        has_color: false,
        space: Some(".".to_string()),
        solid: "#".to_string(),
    };
    s.print(&mut ctx);
    let rows: Vec<&str> = ctx.writer.lines().collect();
    let outer_end = rows[0].rfind('#').unwrap();
    let inner_end = rows[2].rfind('#').unwrap();
    assert!(outer_end >= inner_end);
}
