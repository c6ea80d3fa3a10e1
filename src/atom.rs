use vstd::prelude::*;
use crate::term::{NameV, Term};

verus! {

/// The abstract shape of a term tree.
pub enum ATree {
    Var(NameV),
    App(Box<ATree>, Box<ATree>),
    Lam(NameV, Box<ATree>),
}

impl ATree {
    /// The number of nodes of the tree.
    pub open spec fn size(self) -> nat
        decreases self,
    {
        match self {
            ATree::Var(_) => 1,
            ATree::App(f, a) => 1 + f.size() + a.size(),
            ATree::Lam(_, b) => 1 + b.size(),
        }
    }

    /// The tree with every name offset forgotten: the shape that two parses of
    /// the same expression from different texts have in common.
    pub open spec fn names_only(self) -> ATree
        decreases self,
    {
        match self {
            ATree::Var(n) => ATree::Var(NameV { text: n.text, at: 0 }),
            ATree::App(f, a) => ATree::App(Box::new(f.names_only()), Box::new(a.names_only())),
            ATree::Lam(n, b) => ATree::Lam(NameV { text: n.text, at: 0 }, Box::new(b.names_only())),
        }
    }
}

/// A lambda term: a variable, an application or an abstraction.
#[derive(Debug, PartialEq, Eq)]
pub enum Atom {
    Term(Term),
    Call(Box<Atom>, Box<Atom>),
    Func(Term, Box<Atom>),
}

impl View for Atom {
    type V = ATree;

    open spec fn view(&self) -> ATree
        decreases self,
    {
        match self {
            Atom::Term(t) => ATree::Var(t@),
            Atom::Call(f, a) => ATree::App(Box::new((**f)@), Box::new((**a)@)),
            Atom::Func(t, b) => ATree::Lam(t@, Box::new((**b)@)),
        }
    }
}

impl Atom {
    /// Whether the atom is an application.
    pub fn is_call(&self) -> (r: bool)
        ensures
            r == (self@ is App),
    {
        matches!(self, Atom::Call(..))
    }

    /// Whether the atom is an abstraction.
    pub fn is_func(&self) -> (r: bool)
        ensures
            r == (self@ is Lam),
    {
        matches!(self, Atom::Func(..))
    }

    /// Whether the atom is a variable.
    pub fn is_term(&self) -> (r: bool)
        ensures
            r == (self@ is Var),
    {
        matches!(self, Atom::Term(..))
    }

    /// A copy of the whole tree.
    pub fn dup(&self) -> (r: Atom)
        ensures
            r@ == self@,
        decreases self,
    {
        match self {
            Atom::Term(t) => Atom::Term(t.dup()),
            Atom::Call(f, a) => Atom::Call(Box::new(f.dup()), Box::new(a.dup())),
            Atom::Func(t, b) => Atom::Func(t.dup(), Box::new(b.dup())),
        }
    }
}

/// The fully parenthesised form: `(f a)` written `(fa)`, `λx.e` written `(λx.e)`.
pub open spec fn raw_text(t: ATree) -> Seq<char>
    decreases t,
{
    match t {
        ATree::Var(n) => n.text,
        ATree::App(f, a) => seq!['('] + raw_text(*f) + raw_text(*a) + seq![')'],
        ATree::Lam(n, b) => seq!['(', '\u{3bb}'] + n.text + seq!['.'] + raw_text(*b) + seq![')'],
    }
}

/// The form with only the parentheses that reading back needs; `prec` is the
/// context: 2 for a function position, 3 for an argument, 1 for a body.
pub open spec fn simple_text(t: ATree, prec: Option<nat>) -> Seq<char>
    decreases t,
{
    match t {
        ATree::Var(n) => n.text,
        ATree::App(f, a) => {
            let inner = simple_text(*f, Some(2)) + simple_text(*a, Some(3));
            if prec matches Some(p) && p <= 2 { inner } else { seq!['('] + inner + seq![')'] }
        },
        ATree::Lam(n, b) => {
            let inner = seq!['\u{3bb}'] + n.text + seq!['.'] + simple_text(*b, Some(1));
            if prec == Some(1nat) { inner } else { seq!['('] + inner + seq![')'] }
        },
    }
}

/// Whether a tree is small enough, within `level`, to stay on one line.
pub open spec fn simple_spec(t: ATree, level: nat) -> bool
    decreases t,
{
    if level == 0 {
        false
    } else {
        match t {
            ATree::Var(_) => true,
            ATree::Lam(_, b) => simple_spec(*b, (level - 1) as nat),
            ATree::App(f, a) => {
                let next = if level >= 2 { (level - 2) as nat } else { 0 };
                simple_spec(*f, next) && simple_spec(*a, next)
            },
        }
    }
}

/// `n` spaces.
pub open spec fn spaces(n: nat) -> Seq<char> {
    Seq::new(n, |i: int| ' ')
}

/// The indented form: a tree that is not simple within `level` opens a
/// parenthesis, puts each part on a line of its own indented two more spaces,
/// and closes on a line at the current indentation `ind`.
pub open spec fn pretty_text(t: ATree, ind: nat, level: nat) -> Seq<char>
    decreases t,
{
    if simple_spec(t, level) {
        simple_text(t, None)
    } else {
        match t {
            ATree::Var(n) => n.text,
            ATree::App(f, a) => seq!['(', '\n'] + spaces(ind + 2) + pretty_text(*f, ind + 2, level)
                + seq!['\n'] + spaces(ind + 2) + pretty_text(*a, ind + 2, level)
                + seq!['\n'] + spaces(ind) + seq![')'],
            ATree::Lam(n, b) => seq!['(', '\u{3bb}'] + n.text + seq!['.', '\n'] + spaces(ind + 2)
                + pretty_text(*b, ind + 2, level) + seq!['\n'] + spaces(ind) + seq![')'],
        }
    }
}

fn push_spaces(out: &mut String, n: usize)
    ensures
        final(out)@ == old(out)@ + spaces(n as nat),
{
    let mut i: usize = 0;
    while i < n
        invariant
            i <= n,
            out@ == old(out)@ + spaces(i as nat),
        decreases n - i,
    {
        proof {
            reveal_strlit(" ");
        }
        out.append(" ");
        i += 1;
        assert(out@ =~= old(out)@ + spaces(i as nat));
    }
}

impl Atom {
    /// Appends the fully parenthesised form.
    pub fn write_raw(&self, out: &mut String)
        ensures
            final(out)@ == old(out)@ + raw_text(self@),
        decreases self,
    {
        proof {
            reveal_strlit("(");
            reveal_strlit(")");
            reveal_strlit(".");
            reveal_strlit("(\u{3bb}");
        }
        match self {
            Atom::Term(t) => out.append(t.text()),
            Atom::Call(f, a) => {
                out.append("(");
                f.write_raw(out);
                a.write_raw(out);
                out.append(")");
                assert(out@ =~= old(out)@ + raw_text(self@));
            },
            Atom::Func(t, b) => {
                out.append("(\u{3bb}");
                out.append(t.text());
                out.append(".");
                b.write_raw(out);
                out.append(")");
                assert(out@ =~= old(out)@ + raw_text(self@));
            },
        }
    }

    /// The fully parenthesised form.
    pub fn to_raw(&self) -> (r: String)
        ensures
            r@ == raw_text(self@),
    {
        let mut out = String::new();
        self.write_raw(&mut out);
        assert(out@ =~= raw_text(self@));
        out
    }

    /// Appends the form with only the parentheses needed in context `prec`.
    pub fn write_simple(&self, prec: Option<usize>, out: &mut String)
        ensures
            final(out)@ == old(out)@ + simple_text(self@, match prec {
                Some(p) => Some(p as nat),
                None => None,
            }),
        decreases self,
    {
        proof {
            reveal_strlit("(");
            reveal_strlit(")");
            reveal_strlit(".");
            reveal_strlit("\u{3bb}");
        }
        let ghost pn: Option<nat> = match prec {
            Some(p) => Some(p as nat),
            None => None,
        };
        match self {
            Atom::Term(t) => out.append(t.text()),
            Atom::Call(f, a) => {
                let bare = match prec {
                    Some(p) => p <= 2,
                    None => false,
                };
                if !bare {
                    out.append("(");
                }
                f.write_simple(Some(2), out);
                a.write_simple(Some(3), out);
                if !bare {
                    out.append(")");
                }
                assert(out@ =~= old(out)@ + simple_text(self@, pn));
            },
            Atom::Func(t, b) => {
                let bare = match prec {
                    Some(p) => p == 1,
                    None => false,
                };
                if !bare {
                    out.append("(");
                }
                out.append("\u{3bb}");
                out.append(t.text());
                out.append(".");
                b.write_simple(Some(1), out);
                if !bare {
                    out.append(")");
                }
                assert(out@ =~= old(out)@ + simple_text(self@, pn));
            },
        }
    }

    /// The form with only the parentheses that reading back needs.
    pub fn to_simple(&self) -> (r: String)
        ensures
            r@ == simple_text(self@, None),
    {
        let mut out = String::new();
        self.write_simple(None, &mut out);
        assert(out@ =~= simple_text(self@, None));
        out
    }

    /// Whether the tree stays on one line in the indented form at `level`.
    pub fn simple(&self, level: usize) -> (r: bool)
        ensures
            r == simple_spec(self@, level as nat),
        decreases self,
    {
        if level == 0 {
            return false;
        }
        match self {
            Atom::Term(_) => true,
            Atom::Func(_, b) => b.simple(level - 1),
            Atom::Call(f, a) => {
                let next = level.saturating_sub(2);
                f.simple(next) && a.simple(next)
            },
        }
    }

    /// Appends the indented form at indentation `ind`.
    pub fn indented_fmt(&self, ind: usize, level: usize, out: &mut String)
        requires
            ind + 2 * self@.size() <= usize::MAX,
        ensures
            final(out)@ == old(out)@ + pretty_text(self@, ind as nat, level as nat),
        decreases self,
    {
        proof {
            reveal_strlit(")");
            reveal_strlit("(\n");
            reveal_strlit("\n");
            reveal_strlit(".\n");
            reveal_strlit("(\u{3bb}");
        }
        if self.simple(level) {
            self.write_simple(None, out);
            return;
        }
        match self {
            Atom::Term(t) => out.append(t.text()),
            Atom::Call(f, a) => {
                out.append("(\n");
                push_spaces(out, ind + 2);
                f.indented_fmt(ind + 2, level, out);
                out.append("\n");
                push_spaces(out, ind + 2);
                a.indented_fmt(ind + 2, level, out);
                out.append("\n");
                push_spaces(out, ind);
                out.append(")");
                assert(out@ =~= old(out)@ + pretty_text(self@, ind as nat, level as nat));
            },
            Atom::Func(t, b) => {
                out.append("(\u{3bb}");
                out.append(t.text());
                out.append(".\n");
                push_spaces(out, ind + 2);
                b.indented_fmt(ind + 2, level, out);
                out.append("\n");
                push_spaces(out, ind);
                out.append(")");
                assert(out@ =~= old(out)@ + pretty_text(self@, ind as nat, level as nat));
            },
        }
    }

    /// The indented form at `level` (8 when none is given).
    pub fn to_pretty(&self, level: Option<usize>) -> (r: String)
        requires
            2 * self@.size() <= usize::MAX,
        ensures
            r@ == pretty_text(self@, 0, match level {
                Some(l) => l as nat,
                None => 8,
            }),
    {
        let l = match level {
            Some(l) => l,
            None => 8,
        };
        let mut out = String::new();
        self.indented_fmt(0, l, &mut out);
        assert(out@ =~= pretty_text(self@, 0, l as nat));
        out
    }

    /// The number of nodes, or `cap` where the tree has more.
    pub fn size_upto(&self, cap: usize) -> (r: usize)
        ensures
            r == if self@.size() < cap { self@.size() } else { cap as nat },
        decreases self,
    {
        if cap == 0 {
            return 0;
        }
        match self {
            Atom::Term(_) => 1,
            Atom::Call(f, a) => {
                let nf = f.size_upto(cap - 1);
                if nf >= cap - 1 {
                    return cap;
                }
                let na = a.size_upto(cap - 1 - nf);
                1 + nf + na
            },
            Atom::Func(_, b) => 1 + b.size_upto(cap - 1),
        }
    }
}

impl Clone for Atom {
    fn clone(&self) -> (r: Atom)
        ensures
            r@ == self@,
    {
        self.dup()
    }
}

impl From<Term> for Atom {
    fn from(v: Term) -> (r: Atom) {
        Atom::Term(v)
    }
}

impl vstd::std_specs::convert::FromSpecImpl<Term> for Atom {
    open spec fn obeys_from_spec() -> bool {
        true
    }

    open spec fn from_spec(v: Term) -> Atom {
        Atom::Term(v)
    }
}

} // verus!
