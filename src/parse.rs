use vstd::prelude::*;
use crate::atom::{ATree, Atom, raw_text};
use crate::term::{NameV, Term};

verus! {

/// Whitespace between tokens.
pub open spec fn is_ws(c: char) -> bool {
    c == ' ' || c == '\t' || c == '\r' || c == '\n'
}

/// A character that is a name on its own.
pub open spec fn is_name_char(c: char) -> bool {
    ('a' <= c && c <= 'z') || ('A' <= c && c <= 'Z') || c == '$' || c == '_'
        || ('\u{3a3}' <= c && c <= '\u{3ba}') || ('\u{3bc}' <= c && c <= '\u{3e7}')
        || c == '+' || c == '*' || c == '/' || c == '%' || c == '!' || c == '-'
}

/// A character allowed between backticks.
pub open spec fn is_quoted_char(c: char) -> bool {
    !is_ws(c) && c != '`'
}

/// The number of bytes of the UTF-8 encoding of a character.
pub open spec fn utf8_len(c: char) -> nat {
    if (c as u32) < 0x80 {
        1
    } else if (c as u32) < 0x800 {
        2
    } else if (c as u32) < 0x10000 {
        3
    } else {
        4
    }
}

/// The byte offset of character index `p`.
pub open spec fn boff(s: Seq<char>, p: int) -> nat
    decreases p,
{
    if p <= 0 || p > s.len() {
        0
    } else {
        boff(s, p - 1) + utf8_len(s[p - 1])
    }
}

/// The index of the first line break at or after `p`, or the end.
pub open spec fn line_end(s: Seq<char>, p: int) -> int
    decreases s.len() - p,
{
    if p < 0 || p >= s.len() || s[p] == '\r' || s[p] == '\n' {
        p
    } else {
        line_end(s, p + 1)
    }
}

/// The index after the whitespace and `#` comments that start at `p`.
pub open spec fn skip(s: Seq<char>, p: int) -> int
    decreases s.len() - p,
{
    if 0 <= p < s.len() && is_ws(s[p]) {
        skip(s, p + 1)
    } else if 0 <= p < s.len() && s[p] == '#' {
        let q = line_end(s, p + 1);
        if p < q <= s.len() { skip(s, q) } else { p }
    } else {
        p
    }
}

/// The index of the first character at or after `p` that may not stand
/// between backticks, or the end.
pub open spec fn quoted_end(s: Seq<char>, p: int) -> int
    decreases s.len() - p,
{
    if 0 <= p < s.len() && is_quoted_char(s[p]) {
        quoted_end(s, p + 1)
    } else {
        p
    }
}

/// The name that starts at `p` and the index after it: one name character, or
/// a non-empty run of allowed characters between backticks.
pub open spec fn term_at(s: Seq<char>, p: int) -> Option<(Seq<char>, int)> {
    if 0 <= p < s.len() && is_name_char(s[p]) {
        Some((seq![s[p]], p + 1))
    } else if 0 <= p && p + 1 < s.len() && s[p] == '`' && is_quoted_char(s[p + 1]) {
        let q = quoted_end(s, p + 1);
        if q < s.len() && s[q] == '`' { Some((s.subrange(p + 1, q), q + 1)) } else { None }
    } else {
        None
    }
}

/// The outcome of a grammar rule: the tree read and the index after it, if the
/// rule matched, and the furthest index at which a token was expected and not
/// found during the attempt (0 where none was).
pub struct PRes {
    pub ok: Option<(ATree, int)>,
    pub far: int,
}

/// The larger of two integers.
pub open spec fn mx(a: int, b: int) -> int {
    if a > b { a } else { b }
}

/// The tree of the innermost definition of `name`, if any.
pub open spec fn lookup(env: Seq<(Seq<char>, ATree)>, name: Seq<char>) -> Option<ATree>
    decreases env.len(),
{
    if env.len() == 0 {
        None
    } else if env.last().0 == name {
        Some(env.last().1)
    } else {
        lookup(env.drop_last(), name)
    }
}

/// Nested abstractions over the given parameters, outermost first.
pub open spec fn fold_lams(names: Seq<NameV>, body: ATree) -> ATree
    decreases names.len(),
{
    if names.len() == 0 {
        body
    } else {
        ATree::Lam(names[0], Box::new(fold_lams(names.drop_first(), body)))
    }
}

/// Further names of a parameter list after index `p`: the names, the index
/// after the last one, and the index where the next name was expected.
pub open spec fn names_rest(s: Seq<char>, p: int, names: Seq<NameV>) -> (Seq<NameV>, int, int)
    decreases s.len() - p,
{
    let r = skip(s, p);
    match term_at(s, r) {
        Some((t, r1)) => if p < r1 <= s.len() {
            names_rest(s, r1, names.push(NameV { text: t, at: boff(s, r) }))
        } else {
            (names, p, r)
        },
        None => (names, p, r),
    }
}

/// Whether `p` and `q` are indices of `s` with `p` before `q`. The rules
/// test it before each recursive step; it always holds there, and it makes
/// their termination evident.
pub open spec fn fwd(s: Seq<char>, p: int, q: int) -> bool {
    0 <= p < q <= s.len()
}

/// Whether `p` and `q` are indices of `s` with `p` not after `q` (a guard of
/// the same kind).
pub open spec fn fwd_eq(s: Seq<char>, p: int, q: int) -> bool {
    0 <= p <= q <= s.len()
}

/// An atomic term at `p`: a name (replaced by its innermost definition, if
/// any) or a parenthesised definition chain.
pub open spec fn atom_rule(s: Seq<char>, p: int, env: Seq<(Seq<char>, ATree)>) -> PRes
    decreases s.len() - p, 0int,
{
    match term_at(s, p) {
        Some((t, at1)) => {
            let v = match lookup(env, t) {
                Some(d) => d,
                None => ATree::Var(NameV { text: t, at: boff(s, p) }),
            };
            PRes { ok: Some((v, at1)), far: 0 }
        },
        None => if 0 <= p < s.len() && s[p] == '(' && fwd(s, p, skip(s, p + 1)) {
            let d = definite_rule(s, skip(s, p + 1), env);
            match d.ok {
                None => PRes { ok: None, far: mx(p, d.far) },
                Some((e, q1)) => {
                    let q2 = skip(s, q1);
                    if 0 <= q2 < s.len() && s[q2] == ')' {
                        PRes { ok: Some((e, q2 + 1)), far: mx(p, d.far) }
                    } else {
                        PRes { ok: None, far: mx(mx(p, d.far), q2) }
                    }
                },
            }
        } else {
            PRes { ok: None, far: p }
        },
    }
}

/// The atoms after index `p` of an application whose left part `acc` is read.
pub open spec fn call_rest(s: Seq<char>, p: int, acc: ATree, far: int, env: Seq<(Seq<char>, ATree)>) -> PRes
    decreases s.len() - p, 1int,
{
    let r = skip(s, p);
    if fwd_eq(s, p, r) {
        let a = atom_rule(s, r, env);
        match a.ok {
            None => PRes { ok: Some((acc, p)), far: mx(far, a.far) },
            Some((t, r1)) => if fwd(s, p, r1) {
                call_rest(s, r1, ATree::App(Box::new(acc), Box::new(t)), mx(far, a.far), env)
            } else {
                PRes { ok: Some((acc, p)), far: mx(far, a.far) }
            },
        }
    } else {
        PRes { ok: Some((acc, p)), far }
    }
}

/// One or more atoms, applied left to right.
pub open spec fn call_rule(s: Seq<char>, p: int, env: Seq<(Seq<char>, ATree)>) -> PRes
    decreases s.len() - p, 2int,
{
    if fwd_eq(s, p, p) {
        let a = atom_rule(s, p, env);
        match a.ok {
            None => a,
            Some((t, at1)) => if fwd(s, p, at1) { call_rest(s, at1, t, a.far, env) } else { a },
        }
    } else {
        PRes { ok: None, far: 0 }
    }
}

/// An abstraction `λx y. e` (the marker is optional) or else an application.
pub open spec fn lambda_rule(s: Seq<char>, p: int, env: Seq<(Seq<char>, ATree)>) -> PRes
    decreases s.len() - p, 3int,
{
    if fwd_eq(s, p, p) {
        let marked = p < s.len() && (s[p] == '\u{3bb}' || s[p] == '^');
        let fl = if p < s.len() && s[p] == '\u{3bb}' { 0 } else { p };
        let q = if marked { skip(s, p + 1) } else { p };
        let alt1 = match term_at(s, q) {
            None => PRes { ok: None, far: mx(fl, q) },
            Some((t0, q1)) => if fwd(s, q, q1) {
                let (names, q2, fnm) = names_rest(s, q1, seq![NameV { text: t0, at: boff(s, q) }]);
                let q3 = skip(s, q2);
                if 0 <= q3 < s.len() && s[q3] == '.' && fwd(s, p, skip(s, q3 + 1)) {
                    let sub = lambda_rule(s, skip(s, q3 + 1), env);
                    match sub.ok {
                        None => PRes { ok: None, far: mx(mx(fl, fnm), sub.far) },
                        Some((b, q5)) => PRes { ok: Some((fold_lams(names, b), q5)), far: mx(mx(fl, fnm), sub.far) },
                    }
                } else {
                    PRes { ok: None, far: mx(mx(fl, fnm), q3) }
                }
            } else {
                PRes { ok: None, far: 0 }
            },
        };
        if alt1.ok is Some {
            alt1
        } else {
            let alt2 = call_rule(s, p, env);
            PRes { ok: alt2.ok, far: mx(alt1.far, alt2.far) }
        }
    } else {
        PRes { ok: None, far: 0 }
    }
}

/// Definitions `x := e ;`, each visible to what follows it, then the
/// expression they scope over; or else an abstraction.
pub open spec fn definite_rule(s: Seq<char>, p: int, env: Seq<(Seq<char>, ATree)>) -> PRes
    decreases s.len() - p, 4int,
{
    if fwd_eq(s, p, p) {
        let alt1 = match term_at(s, p) {
            None => PRes { ok: None, far: p },
            Some((t, at1)) => {
                let at2 = skip(s, at1);
                if 0 <= at2 && at2 + 1 < s.len() && s[at2] == ':' && s[at2 + 1] == '=' && fwd(s, p, skip(s, at2 + 2)) {
                    let e = lambda_rule(s, skip(s, at2 + 2), env);
                    match e.ok {
                        None => PRes { ok: None, far: e.far },
                        Some((et, at4)) => {
                            let at5 = skip(s, at4);
                            if 0 <= at5 < s.len() && s[at5] == ';' && fwd(s, p, skip(s, at5 + 1)) {
                                let d = definite_rule(s, skip(s, at5 + 1), env.push((t, et)));
                                PRes { ok: d.ok, far: mx(e.far, d.far) }
                            } else {
                                PRes { ok: None, far: mx(e.far, at5) }
                            }
                        },
                    }
                } else {
                    PRes { ok: None, far: at2 }
                }
            },
        };
        if alt1.ok is Some {
            alt1
        } else {
            let alt2 = lambda_rule(s, p, env);
            PRes { ok: alt2.ok, far: mx(alt1.far, alt2.far) }
        }
    } else {
        PRes { ok: None, far: 0 }
    }
}

/// A whole expression: the tree, or the byte offset of the furthest point at
/// which the text could not go on.
pub open spec fn parse_spec(s: Seq<char>) -> Result<ATree, nat> {
    let p = skip(s, 0);
    let d = definite_rule(s, p, Seq::empty());
    match d.ok {
        None => Err(boff(s, d.far)),
        Some((e, q)) => {
            let q2 = skip(s, q);
            if q2 == s.len() { Ok(e) } else { Err(boff(s, mx(d.far, q2))) }
        },
    }
}

/// Source text that the grammar does not accept: the byte offset of the
/// furthest point at which a token was expected and not found.
#[derive(Debug, Clone, Copy, PartialEq, Eq)]
pub struct SyntaxError {
    pub offset: usize,
}

/// Whether an executable outcome is the rule's abstract outcome.
pub open spec fn agrees(r: (Option<(Atom, usize)>, usize), sp: PRes) -> bool {
    &&& r.1 as int == sp.far
    &&& match r.0 {
        None => sp.ok is None,
        Some((a, q)) => sp.ok == Some((a@, q as int)),
    }
}

/// The positions a rule's outcome may hold: the end lies after the start, and
/// the furthest failure lies in the text.
pub open spec fn in_text(r: (Option<(Atom, usize)>, usize), p: int, n: int) -> bool {
    &&& r.1 <= n
    &&& (r.0 matches Some((a, q)) ==> p < q <= n)
}

struct Parser<'a> {
    text: &'a str,
    s: Vec<char>,
    offs: Vec<usize>,
    env: Vec<(String, Atom)>,
}

fn byte_len(c: char) -> (r: usize)
    ensures
        r == utf8_len(c),
{
    let u = c as u32;
    if u < 0x80 {
        1
    } else if u < 0x800 {
        2
    } else if u < 0x10000 {
        3
    } else {
        4
    }
}

proof fn lemma_boff_le(s: Seq<char>, p: int)
    requires
        0 <= p <= s.len(),
    ensures
        boff(s, p) <= 4 * p,
    decreases p,
{
    if p > 0 {
        lemma_boff_le(s, p - 1);
    }
}

fn max_of(a: usize, b: usize) -> (r: usize)
    ensures
        r as int == mx(a as int, b as int),
{
    if a > b { a } else { b }
}

impl<'a> Parser<'a> {
    spec fn env_v(&self) -> Seq<(Seq<char>, ATree)> {
        Seq::new(self.env@.len(), |i: int| (self.env@[i].0@, self.env@[i].1@))
    }

    spec fn wf(&self) -> bool {
        &&& self.s@ == self.text@
        &&& self.s@.len() + 4 < usize::MAX
        &&& self.offs@.len() == self.s@.len() + 1
        &&& forall|i: int| 0 <= i <= self.s@.len() ==> #[trigger] self.offs@[i] as int == boff(self.s@, i)
    }

    spec fn same(&self, other: &Parser) -> bool {
        &&& self.text@ == other.text@
        &&& self.s@ == other.s@
        &&& self.offs@ == other.offs@
        &&& self.env_v() == other.env_v()
    }

    fn line_end(&self, p: usize) -> (r: usize)
        requires
            self.wf(),
            p <= self.s@.len(),
        ensures
            r as int == line_end(self.s@, p as int),
            p <= r <= self.s@.len(),
    {
        let mut i = p;
        while i < self.s.len() && self.s[i] != '\r' && self.s[i] != '\n'
            invariant
                p <= i <= self.s@.len(),
                line_end(self.s@, p as int) == line_end(self.s@, i as int),
            decreases self.s@.len() - i,
        {
            i += 1;
        }
        i
    }

    fn skip_ws(&self, p: usize) -> (r: usize)
        requires
            self.wf(),
            p <= self.s@.len(),
        ensures
            r as int == skip(self.s@, p as int),
            p <= r <= self.s@.len(),
    {
        let mut i = p;
        loop
            invariant
                p <= i <= self.s@.len(),
                self.wf(),
                skip(self.s@, p as int) == skip(self.s@, i as int),
            decreases self.s@.len() - i,
        {
            if i < self.s.len() && (self.s[i] == ' ' || self.s[i] == '\t' || self.s[i] == '\r' || self.s[i] == '\n') {
                i += 1;
            } else if i < self.s.len() && self.s[i] == '#' {
                let q = self.line_end(i + 1);
                i = q;
            } else {
                return i;
            }
        }
    }

    fn quoted_end(&self, p: usize) -> (r: usize)
        requires
            self.wf(),
            p <= self.s@.len(),
        ensures
            r as int == quoted_end(self.s@, p as int),
            p <= r <= self.s@.len(),
    {
        let mut i = p;
        while i < self.s.len() && self.s[i] != ' ' && self.s[i] != '\t' && self.s[i] != '\r'
            && self.s[i] != '\n' && self.s[i] != '`'
            invariant
                p <= i <= self.s@.len(),
                quoted_end(self.s@, p as int) == quoted_end(self.s@, i as int),
            decreases self.s@.len() - i,
        {
            i += 1;
        }
        i
    }

    fn name_char(c: char) -> (r: bool)
        ensures
            r == is_name_char(c),
    {
        ('a' <= c && c <= 'z') || ('A' <= c && c <= 'Z') || c == '$' || c == '_'
            || ('\u{3a3}' <= c && c <= '\u{3ba}') || ('\u{3bc}' <= c && c <= '\u{3e7}')
            || c == '+' || c == '*' || c == '/' || c == '%' || c == '!' || c == '-'
    }

    fn term_at(&self, p: usize) -> (r: Option<(Term, usize)>)
        requires
            self.wf(),
            p <= self.s@.len(),
        ensures
            r matches Some((t, q)) ==> term_at(self.s@, p as int) == Some((t.0@, q as int))
                && t@ == (NameV { text: t.0@, at: boff(self.s@, p as int) }) && p < q <= self.s@.len(),
            r is None ==> term_at(self.s@, p as int) is None,
    {
        let n = self.s.len();
        if p < n && Self::name_char(self.s[p]) {
            let t = self.text.substring_char(p, p + 1).to_owned();
            assert(t@ =~= seq![self.s@[p as int]]);
            Some((Term(t, self.offs[p]), p + 1))
        } else if p + 1 < n && self.s[p] == '`' && self.s[p + 1] != ' ' && self.s[p + 1] != '\t'
            && self.s[p + 1] != '\r' && self.s[p + 1] != '\n' && self.s[p + 1] != '`' {
            let q = self.quoted_end(p + 1);
            if q < n && self.s[q] == '`' {
                let t = self.text.substring_char(p + 1, q).to_owned();
                Some((Term(t, self.offs[p]), q + 1))
            } else {
                None
            }
        } else {
            None
        }
    }

    fn lookup(&self, name: &Term) -> (r: Option<Atom>)
        ensures
            r matches Some(a) ==> lookup(self.env_v(), name.0@) == Some(a@),
            r is None ==> lookup(self.env_v(), name.0@) is None,
    {
        let ghost e = self.env_v();
        let mut i = self.env.len();
        assert(e.take(i as int) =~= e);
        while i > 0
            invariant
                i <= self.env@.len(),
                e == self.env_v(),
                lookup(e, name.0@) == lookup(e.take(i as int), name.0@),
            decreases i,
        {
            assert(e.take(i as int).drop_last() =~= e.take(i - 1));
            assert(e.take(i as int).last() == e[i - 1]);
            if self.env[i - 1].0 == name.0 {
                return Some(self.env[i - 1].1.dup());
            }
            i -= 1;
        }
        None
    }

    fn atom_rule(&mut self, p: usize) -> (r: (Option<(Atom, usize)>, usize))
        requires
            old(self).wf(),
            p <= old(self).s@.len(),
        ensures
            final(self).same(old(self)),
            final(self).wf(),
            agrees(r, atom_rule(old(self).s@, p as int, old(self).env_v())),
            in_text(r, p as int, old(self).s@.len() as int),
        decreases old(self).s@.len() - p, 0int,
    {
        let n = self.s.len();
        match self.term_at(p) {
            Some((t, at1)) => {
                let v = match self.lookup(&t) {
                    Some(d) => d,
                    None => Atom::Term(t),
                };
                (Some((v, at1)), 0)
            },
            None => {
                if p < n && self.s[p] == '(' {
                    let q = self.skip_ws(p + 1);
                    let (d, dfar) = self.definite_rule(q);
                    let f1 = max_of(p, dfar);
                    match d {
                        None => (None, f1),
                        Some((e, q1)) => {
                            let q2 = self.skip_ws(q1);
                            if q2 < n && self.s[q2] == ')' {
                                (Some((e, q2 + 1)), f1)
                            } else {
                                (None, max_of(f1, q2))
                            }
                        },
                    }
                } else {
                    (None, p)
                }
            },
        }
    }

    fn call_rule(&mut self, p: usize) -> (r: (Option<(Atom, usize)>, usize))
        requires
            old(self).wf(),
            p <= old(self).s@.len(),
        ensures
            final(self).same(old(self)),
            final(self).wf(),
            agrees(r, call_rule(old(self).s@, p as int, old(self).env_v())),
            in_text(r, p as int, old(self).s@.len() as int),
        decreases old(self).s@.len() - p, 2int,
    {
        let ghost s0 = self.s@;
        let ghost env = self.env_v();
        let (a, afar) = self.atom_rule(p);
        match a {
            None => (None, afar),
            Some((t, at1)) => {
                let mut acc = t;
                let mut cur = at1;
                let mut far = afar;
                loop
                    invariant
                        self.same(old(self)),
                        self.wf(),
                        s0 == self.s@,
                        env == self.env_v(),
                        p < cur <= s0.len(),
                        far <= s0.len(),
                        call_rule(s0, p as int, env) == call_rest(s0, cur as int, acc@, far as int, env),
                    decreases s0.len() - cur,
                {
                    let r = self.skip_ws(cur);
                    let (b, bfar) = self.atom_rule(r);
                    let nf = max_of(far, bfar);
                    match b {
                        None => {
                            return (Some((acc, cur)), nf);
                        },
                        Some((u, r1)) => {
                            acc = Atom::Call(Box::new(acc), Box::new(u));
                            cur = r1;
                            far = nf;
                        },
                    }
                }
            },
        }
    }

    fn lambda_rule(&mut self, p: usize) -> (r: (Option<(Atom, usize)>, usize))
        requires
            old(self).wf(),
            p <= old(self).s@.len(),
        ensures
            final(self).same(old(self)),
            final(self).wf(),
            agrees(r, lambda_rule(old(self).s@, p as int, old(self).env_v())),
            in_text(r, p as int, old(self).s@.len() as int),
        decreases old(self).s@.len() - p, 3int,
    {
        let ghost s0 = self.s@;
        let ghost env = self.env_v();
        let n = self.s.len();
        let marked = p < n && (self.s[p] == '\u{3bb}' || self.s[p] == '^');
        let fl: usize = if p < n && self.s[p] == '\u{3bb}' { 0 } else { p };
        let q = if marked { self.skip_ws(p + 1) } else { p };
        let alt1: (Option<(Atom, usize)>, usize) = match self.term_at(q) {
            None => (None, max_of(fl, q)),
            Some((t0, q1)) => {
                let ghost n0 = seq![t0@];
                let mut names: Vec<Term> = Vec::new();
                names.push(t0);
                let mut cur = q1;
                let ghost target = names_rest(s0, q1 as int, n0);
                assert(names@.map_values(|t: Term| t@) =~= n0);
                let mut fnm: usize = 0;
                loop
                    invariant
                        self.wf(),
                        s0 == self.s@,
                        q < cur <= s0.len(),
                        names@.len() > 0,
                        target == names_rest(s0, cur as int, names@.map_values(|t: Term| t@)),
                    ensures
                        q < cur <= s0.len(),
                        fnm <= s0.len(),
                        names@.len() > 0,
                        target == (names@.map_values(|t: Term| t@), cur as int, fnm as int),
                    decreases s0.len() - cur,
                {
                    let r = self.skip_ws(cur);
                    match self.term_at(r) {
                        Some((t, r1)) => {
                            let ghost v = names@.map_values(|t: Term| t@);
                            let ghost tv = t@;
                            names.push(t);
                            assert(names@.map_values(|t: Term| t@) =~= v.push(tv));
                            cur = r1;
                        },
                        None => {
                            fnm = r;
                            break;
                        },
                    }
                }
                let q3 = self.skip_ws(cur);
                if q3 < n && self.s[q3] == '.' {
                    let q4 = self.skip_ws(q3 + 1);
                    let (sub, sfar) = self.lambda_rule(q4);
                    let f1 = max_of(max_of(fl, fnm), sfar);
                    match sub {
                        None => (None, f1),
                        Some((b, q5)) => {
                            let mut acc = b;
                            let mut i = names.len();
                            while i > 0
                                invariant
                                    i <= names@.len(),
                                    acc@ == fold_lams(names@.map_values(|t: Term| t@).subrange(i as int, names@.len() as int), b@),
                                decreases i,
                            {
                                i -= 1;
                                let ghost ns = names@.map_values(|t: Term| t@);
                                assert(ns.subrange(i as int, ns.len() as int).drop_first() =~= ns.subrange(i + 1, ns.len() as int));
                                acc = Atom::Func(names[i].dup(), Box::new(acc));
                            }
                            assert(names@.map_values(|t: Term| t@).subrange(0, names@.len() as int) =~= names@.map_values(|t: Term| t@));
                            (Some((acc, q5)), f1)
                        },
                    }
                } else {
                    (None, max_of(max_of(fl, fnm), q3))
                }
            },
        };
        if alt1.0.is_some() {
            alt1
        } else {
            let (c, cfar) = self.call_rule(p);
            (c, max_of(alt1.1, cfar))
        }
    }

    fn definite_rule(&mut self, p: usize) -> (r: (Option<(Atom, usize)>, usize))
        requires
            old(self).wf(),
            p <= old(self).s@.len(),
        ensures
            final(self).same(old(self)),
            final(self).wf(),
            agrees(r, definite_rule(old(self).s@, p as int, old(self).env_v())),
            in_text(r, p as int, old(self).s@.len() as int),
        decreases old(self).s@.len() - p, 4int,
    {
        let ghost s0 = self.s@;
        let ghost env = self.env_v();
        let n = self.s.len();
        let alt1: (Option<(Atom, usize)>, usize) = match self.term_at(p) {
            None => (None, p),
            Some((t, at1)) => {
                let at2 = self.skip_ws(at1);
                if at2 + 1 < n && self.s[at2] == ':' && self.s[at2 + 1] == '=' {
                    let at3 = self.skip_ws(at2 + 2);
                    let (e, efar) = self.lambda_rule(at3);
                    match e {
                        None => (None, efar),
                        Some((et, at4)) => {
                            let at5 = self.skip_ws(at4);
                            if at5 < n && self.s[at5] == ';' {
                                let at6 = self.skip_ws(at5 + 1);
                                let ghost et_v = et@;
                                self.env.push((t.0, et));
                                assert(self.env_v() =~= env.push((t.0@, et_v)));
                                let (d, dfar) = self.definite_rule(at6);
                                let ghost before = self.env_v();
                                let _ = self.env.pop();
                                assert(self.env_v() =~= before.drop_last());
                                assert(env.push((t.0@, et_v)).drop_last() =~= env);
                                assert(self.env_v() =~= env);
                                (d, max_of(efar, dfar))
                            } else {
                                (None, max_of(efar, at5))
                            }
                        },
                    }
                } else {
                    (None, at2)
                }
            },
        };
        if alt1.0.is_some() {
            alt1
        } else {
            let (c, cfar) = self.lambda_rule(p);
            (c, max_of(alt1.1, cfar))
        }
    }
}

/// Parses a whole expression: the term tree, with every definition replaced
/// at its uses, or the byte offset at which the text stops making sense.
pub fn expr(text: &str) -> (r: Result<Atom, SyntaxError>)
    requires
        4 * text@.len() + 8 < usize::MAX,
    ensures
        r matches Ok(a) ==> parse_spec(text@) == Ok::<ATree, nat>(a@),
        r matches Err(e) ==> parse_spec(text@) == Err::<ATree, nat>(e.offset as nat),
        r is Ok <==> parse_spec(text@) is Ok,
{
    let n = text.unicode_len();
    let mut s: Vec<char> = Vec::new();
    let mut offs: Vec<usize> = Vec::new();
    let mut acc: usize = 0;
    offs.push(0);
    let mut i: usize = 0;
    while i < n
        invariant
            n == text@.len(),
            4 * n + 8 < usize::MAX,
            i <= n,
            s@ =~= text@.take(i as int),
            offs@.len() == i + 1,
            acc as int == boff(text@, i as int),
            forall|k: int| 0 <= k <= i ==> #[trigger] offs@[k] as int == boff(text@, k),
        decreases n - i,
    {
        proof {
            lemma_boff_le(text@, i + 1);
        }
        let c = text.get_char(i);
        s.push(c);
        acc = acc + byte_len(c);
        offs.push(acc);
        i += 1;
    }
    assert(s@ =~= text@);
    assert forall|k: int| 0 <= k <= s@.len() implies #[trigger] offs@[k] as int == boff(s@, k) by {
        assert(offs@[k] as int == boff(text@, k));
    }
    let mut ps = Parser { text, s, offs, env: Vec::new() };
    assert(ps.env_v() =~= Seq::<(Seq<char>, ATree)>::empty());
    let p = ps.skip_ws(0);
    let (d, dfar) = ps.definite_rule(p);
    match d {
        None => Err(SyntaxError { offset: ps.offs[dfar] }),
        Some((e, q)) => {
            let q2 = ps.skip_ws(q);
            if q2 == ps.s.len() {
                Ok(e)
            } else {
                let f = max_of(dfar, q2);
                Err(SyntaxError { offset: ps.offs[f] })
            }
        },
    }
}

/// Every name of the tree is a single name character, so that the raw form
/// writes it as it is read.
pub open spec fn single_names(t: ATree) -> bool
    decreases t,
{
    match t {
        ATree::Var(n) => n.text.len() == 1 && is_name_char(n.text[0]),
        ATree::App(f, a) => single_names(*f) && single_names(*a),
        ATree::Lam(n, b) => n.text.len() == 1 && is_name_char(n.text[0]) && single_names(*b),
    }
}

/// The raw form holds `r` at index `p` of `s`.
pub open spec fn holds_at(s: Seq<char>, p: int, r: Seq<char>) -> bool {
    0 <= p && p + r.len() <= s.len() && s.subrange(p, p + r.len()) == r
}

proof fn lemma_raw_first(t: ATree)
    requires
        single_names(t),
    ensures
        raw_text(t).len() >= 1,
        is_name_char(raw_text(t)[0]) || raw_text(t)[0] == '(',
        t is Var ==> raw_text(t).len() == 1,
        !(t is Var) ==> raw_text(t)[0] == '(',
{
    match t {
        ATree::Var(n) => {},
        ATree::App(f, a) => {},
        ATree::Lam(n, b) => {},
    }
}

proof fn lemma_char_at(s: Seq<char>, p: int, r: Seq<char>, i: int)
    requires
        holds_at(s, p, r),
        0 <= i < r.len(),
    ensures
        s[p + i] == r[i],
{
    assert(s.subrange(p, p + r.len())[i] == s[p + i]);
}

proof fn lemma_no_skip(s: Seq<char>, p: int)
    requires
        0 <= p <= s.len(),
        p < s.len() ==> (is_name_char(s[p]) || s[p] == '(' || s[p] == ')' || s[p] == '.' || s[p] == '\u{3bb}'),
    ensures
        skip(s, p) == p,
{
}

proof fn lemma_holds_sub(s: Seq<char>, p: int, r: Seq<char>, i: int, x: Seq<char>)
    requires
        holds_at(s, p, r),
        0 <= i,
        i + x.len() <= r.len(),
        r.subrange(i, i + x.len()) == x,
    ensures
        holds_at(s, p + i, x),
{
    assert forall|j: int| 0 <= j < x.len() implies #[trigger] s.subrange(p + i, p + i + x.len())[j] == x[j] by {
        assert(s.subrange(p, p + r.len())[i + j] == s[p + i + j]);
        assert(r.subrange(i, i + x.len())[j] == r[i + j]);
    }
    assert(s.subrange(p + i, p + i + x.len()) =~= x);
}

#[verifier::rlimit(60)]
proof fn lemma_atom_app(s: Seq<char>, p: int, f: ATree, a: ATree)
    requires
        single_names(f),
        single_names(a),
        holds_at(s, p, raw_text(ATree::App(Box::new(f), Box::new(a)))),
        atom_rule(s, p + 1, Seq::empty()).ok matches Some((u, q))
            && u.names_only() == f.names_only() && q == p + 1 + raw_text(f).len(),
        atom_rule(s, p + 1 + raw_text(f).len(), Seq::empty()).ok matches Some((u, q))
            && u.names_only() == a.names_only() && q == p + 1 + raw_text(f).len() + raw_text(a).len(),
    ensures
        atom_rule(s, p, Seq::empty()).ok matches Some((u, q))
            && u.names_only() == ATree::App(Box::new(f), Box::new(a)).names_only()
            && q == p + raw_text(ATree::App(Box::new(f), Box::new(a))).len(),
{
    let t = ATree::App(Box::new(f), Box::new(a));
    let r = raw_text(t);
    let rf = raw_text(f);
    let ra = raw_text(a);
    assert(r == seq!['('] + rf + ra + seq![')']);
    lemma_raw_first(f);
    lemma_raw_first(a);
    let lf = rf.len() as int;
    let la = ra.len() as int;
    assert(r.len() == 2 + lf + la);
    let pf = p + 1;
    let pa = pf + lf;
    let pe = pa + la;
    assert(r.subrange(1, 1 + lf) =~= rf);
    assert(r.subrange(1 + lf, 1 + lf + la) =~= ra);
    lemma_holds_sub(s, p, r, 1, rf);
    lemma_holds_sub(s, p, r, 1 + lf, ra);
    lemma_char_at(s, p, r, 0);
    lemma_char_at(s, p, r, 1 + lf + la);
    lemma_char_at(s, pf, rf, 0);
    lemma_char_at(s, pa, ra, 0);
    assert(s[pe] == ')');
    assert(term_at(s, p) is None);
    lemma_no_skip(s, pf);
    lemma_no_skip(s, pa);
    lemma_no_skip(s, pe);
    assert(term_at(s, pe) is None);
    assert(atom_rule(s, pe, Seq::empty()).ok is None);
    if f is Var {
        assert(term_at(s, pf) == Some((seq![s[pf]], pf + 1)));
        if a is Var {
            assert(term_at(s, pa) == Some((seq![s[pa]], pa + 1)));
            let ns = seq![NameV { text: seq![s[pf]], at: boff(s, pf) }];
            assert(names_rest(s, pa, ns) == names_rest(s, pe, ns.push(NameV { text: seq![s[pa]], at: boff(s, pa) })));
        } else {
            assert(term_at(s, pa) is None);
        }
    } else {
        assert(term_at(s, pf) is None);
    }
    assert(lambda_rule(s, pf, Seq::empty()).ok == call_rule(s, pf, Seq::empty()).ok);
    assert(definite_rule(s, pf, Seq::empty()).ok == lambda_rule(s, pf, Seq::empty()).ok);
}

#[verifier::rlimit(60)]
proof fn lemma_atom_lam(s: Seq<char>, p: int, n: NameV, b: ATree)
    requires
        n.text.len() == 1 && is_name_char(n.text[0]),
        single_names(b),
        holds_at(s, p, raw_text(ATree::Lam(n, Box::new(b)))),
        lambda_rule(s, p + 4, Seq::empty()).ok matches Some((u, q))
            && u.names_only() == b.names_only() && q == p + 4 + raw_text(b).len(),
    ensures
        atom_rule(s, p, Seq::empty()).ok matches Some((u, q))
            && u.names_only() == ATree::Lam(n, Box::new(b)).names_only()
            && q == p + raw_text(ATree::Lam(n, Box::new(b))).len(),
{
    let t = ATree::Lam(n, Box::new(b));
    let r = raw_text(t);
    let rb = raw_text(b);
    assert(r == seq!['(', '\u{3bb}'] + n.text + seq!['.'] + rb + seq![')']);
    lemma_raw_first(b);
    let lb = rb.len() as int;
    assert(r.len() == 5 + lb);
    let pl = p + 1;
    let px = p + 2;
    let pd = p + 3;
    let pb = p + 4;
    let pe = pb + lb;
    assert(r[0] == '(' && r[1] == '\u{3bb}' && r[2] == n.text[0] && r[3] == '.' && r[4 + lb] == ')');
    lemma_char_at(s, p, r, 0);
    lemma_char_at(s, p, r, 1);
    lemma_char_at(s, p, r, 2);
    lemma_char_at(s, p, r, 3);
    lemma_char_at(s, p, r, 4 + lb);
    assert(r.subrange(4, 4 + lb) =~= rb);
    lemma_holds_sub(s, p, r, 4, rb);
    lemma_char_at(s, pb, rb, 0);
    assert(term_at(s, p) is None);
    assert(term_at(s, pl) is None);
    lemma_no_skip(s, pl);
    lemma_no_skip(s, px);
    lemma_no_skip(s, pd);
    lemma_no_skip(s, pb);
    lemma_no_skip(s, pe);
    assert(term_at(s, px) == Some((seq![s[px]], px + 1)));
    assert(term_at(s, pd) is None);
    let nm = NameV { text: seq![s[px]], at: boff(s, px) };
    assert(names_rest(s, pd, seq![nm]) == (seq![nm], pd, pd));
    let sub = lambda_rule(s, pb, Seq::empty());
    let u = sub.ok->Some_0.0;
    assert(seq![nm].drop_first() =~= Seq::<NameV>::empty());
    assert(fold_lams(Seq::<NameV>::empty(), u) == u);
    assert(fold_lams(seq![nm], u) == ATree::Lam(nm, Box::new(u)));
    assert(seq![s[px]] =~= n.text);
    assert(lambda_rule(s, pl, Seq::empty()).ok == Some((ATree::Lam(nm, Box::new(u)), pe)));
    assert(definite_rule(s, pl, Seq::empty()).ok == lambda_rule(s, pl, Seq::empty()).ok);
}

/// An atom read where the raw form of `t` stands is `t`, but for offsets.
proof fn lemma_atom_raw(s: Seq<char>, p: int, t: ATree)
    requires
        single_names(t),
        holds_at(s, p, raw_text(t)),
    ensures
        atom_rule(s, p, Seq::empty()).ok matches Some((u, q))
            && u.names_only() == t.names_only() && q == p + raw_text(t).len(),
    decreases t, 0int,
{
    let r = raw_text(t);
    lemma_raw_first(t);
    lemma_char_at(s, p, r, 0);
    match t {
        ATree::Var(n) => {
            assert(term_at(s, p) == Some((seq![s[p]], p + 1)));
            assert(seq![s[p]] =~= n.text);
        },
        ATree::App(f, a) => {
            let rf = raw_text(*f);
            let ra = raw_text(*a);
            let lf = rf.len() as int;
            let la = ra.len() as int;
            assert(r == seq!['('] + rf + ra + seq![')']);
            assert(r.len() == 2 + lf + la);
            assert(r.subrange(1, 1 + lf) =~= rf);
            assert(r.subrange(1 + lf, 1 + lf + la) =~= ra);
            lemma_holds_sub(s, p, r, 1, rf);
            lemma_holds_sub(s, p, r, 1 + lf, ra);
            lemma_atom_raw(s, p + 1, *f);
            lemma_atom_raw(s, p + 1 + lf, *a);
            lemma_atom_app(s, p, *f, *a);
        },
        ATree::Lam(n, b) => {
            let rb = raw_text(*b);
            let lb = rb.len() as int;
            assert(r == seq!['(', '\u{3bb}'] + n.text + seq!['.'] + rb + seq![')']);
            assert(r.len() == 5 + lb);
            assert(r.subrange(4, 4 + lb) =~= rb);
            lemma_holds_sub(s, p, r, 4, rb);
            lemma_char_at(s, p, r, 4 + lb);
            assert(r[4 + lb] == ')');
            lemma_lambda_raw(s, p + 4, *b);
            lemma_atom_lam(s, p, n, *b);
        },
    }
}

/// An abstraction read where the raw form of `t` stands, with a closing
/// parenthesis or the end after it, is `t`, but for offsets.
proof fn lemma_lambda_raw(s: Seq<char>, p: int, t: ATree)
    requires
        single_names(t),
        holds_at(s, p, raw_text(t)),
        p + raw_text(t).len() < s.len() ==> s[p + raw_text(t).len()] == ')',
    ensures
        lambda_rule(s, p, Seq::empty()).ok matches Some((u, q))
            && u.names_only() == t.names_only() && q == p + raw_text(t).len(),
    decreases t, 1int,
{
    let r = raw_text(t);
    let pe = p + r.len() as int;
    lemma_raw_first(t);
    lemma_char_at(s, p, r, 0);
    lemma_atom_raw(s, p, t);
    lemma_no_skip(s, pe);
    assert(term_at(s, pe) is None);
    assert(atom_rule(s, pe, Seq::empty()).ok is None);
    if t is Var {
        assert(term_at(s, p) == Some((seq![s[p]], p + 1)));
    } else {
        assert(term_at(s, p) is None);
    }
    assert(lambda_rule(s, p, Seq::empty()).ok == call_rule(s, p, Seq::empty()).ok);
}

/// Reading back the raw form of a tree whose names are single name characters
/// gives the same tree, up to the offsets of its names.
pub proof fn lemma_raw_round_trip(t: ATree)
    requires
        single_names(t),
    ensures
        parse_spec(raw_text(t)) matches Ok(u) && u.names_only() == t.names_only(),
{
    let s = raw_text(t);
    lemma_raw_first(t);
    assert(holds_at(s, 0, s)) by {
        assert(s.subrange(0, s.len() as int) =~= s);
    }
    lemma_no_skip(s, 0);
    lemma_no_skip(s, s.len() as int);
    lemma_lambda_raw(s, 0, t);
    if t is Var {
        assert(term_at(s, 0) == Some((seq![s[0]], 1int)));
    } else {
        assert(term_at(s, 0) is None);
    }
    assert(definite_rule(s, 0, Seq::empty()).ok == lambda_rule(s, 0, Seq::empty()).ok);
}

} // verus!
