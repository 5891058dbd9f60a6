//! The scope-tracking scanner: owners and borrows are paired by label, and a
//! violation is reported when an owner is dropped, leaves its scope, or is
//! passed to a function while a borrow with its label is still active.
use vstd::prelude::*;
use crate::text::{
    chars_eq, contains_char, find_char, lemma_find_char_from, push_all, push_str, seq_find_char,
    seq_trim, slice_to_vec_chars, trim, views,
};
use crate::numbers::{decimal, spec_decimal};
use crate::syntax::{
    extract_paren_body, is_ident_chars, is_keyword, is_pointer_expr, is_safe_fn, parse_destructure,
    parse_drop, parse_for, parse_let, parse_lt_assign, parse_lt_let, spec_extract_paren_body,
    spec_is_ident, spec_is_keyword, spec_is_pointer_expr, spec_is_safe_fn, spec_parse_destructure,
    spec_parse_drop, spec_parse_for, spec_parse_let, spec_parse_lt_assign, spec_parse_lt_let,
    spec_split_top_level_commas, split_top_level_commas,
};

verus! {

broadcast use vstd::string::group_string_axioms;

// ------------------------------------------------------------------
// Model
// ------------------------------------------------------------------

/// An annotated binding: its name, its label, the line and the scope depth
/// of its declaration.
pub struct DeclV {
    pub var: Seq<char>,
    pub label: Seq<char>,
    pub line: nat,
    pub depth: nat,
}

/// The scanner's state: the current scope depth, the depth at which each
/// name was last declared, the live owners and borrows, and the violations
/// found so far.
pub struct ScanV {
    pub depth: nat,
    pub vars: Map<Seq<char>, nat>,
    pub owners: Seq<DeclV>,
    pub borrows: Seq<DeclV>,
    pub errors: Seq<(nat, Seq<char>)>,
}

pub open spec fn initial_scan() -> ScanV {
    ScanV {
        depth: 0,
        vars: Map::empty(),
        owners: seq![],
        borrows: seq![],
        errors: seq![],
    }
}

pub open spec fn scope_exit_message(o: DeclV, b: DeclV) -> Seq<char> {
    "["@ + o.label + "] `"@ + o.var + "` (declared at line "@ + spec_decimal(o.line)
        + ") dropped at end of scope but `"@ + b.var + "` (declared at line "@ + spec_decimal(
        b.line,
    ) + ") still has active borrow(s)"@
}

pub open spec fn moved_message(o: DeclV, b: DeclV) -> Seq<char> {
    "["@ + o.label + "] `"@ + o.var + "` passed to function while `"@ + b.var
        + "` (declared at line "@ + spec_decimal(b.line) + ") has active borrow(s)"@
}

pub open spec fn drop_message(o: DeclV, var: Seq<char>, b: DeclV) -> Seq<char> {
    "["@ + o.label + "] `drop("@ + var + ")` called but `"@ + b.var + "` (declared at line "@
        + spec_decimal(b.line) + ") has active borrow(s)"@
}

/// A borrow still alive when the scope at depth `d` closes over owner `o`:
/// declared in an enclosing scope, or earlier than the owner in this scope.
pub open spec fn outlives(o: DeclV, b: DeclV, d: nat) -> bool {
    b.label == o.label && (b.depth < d || (b.depth == d && b.line < o.line))
}

pub open spec fn owner_exit_errors(o: DeclV, bs: Seq<DeclV>, d: nat, line: nat) -> Seq<
    (nat, Seq<char>),
>
    decreases bs.len(),
{
    if bs.len() == 0 {
        seq![]
    } else {
        owner_exit_errors(o, bs.drop_last(), d, line) + if outlives(o, bs.last(), d) {
            seq![(line, scope_exit_message(o, bs.last()))]
        } else {
            seq![]
        }
    }
}

pub open spec fn exit_errors(os: Seq<DeclV>, bs: Seq<DeclV>, d: nat, line: nat) -> Seq<
    (nat, Seq<char>),
>
    decreases os.len(),
{
    if os.len() == 0 {
        seq![]
    } else {
        exit_errors(os.drop_last(), bs, d, line) + if os.last().depth == d {
            owner_exit_errors(os.last(), bs, d, line)
        } else {
            seq![]
        }
    }
}

/// The bindings not declared at depth `d`.
pub open spec fn without_depth(s: Seq<DeclV>, d: nat) -> Seq<DeclV>
    decreases s.len(),
{
    if s.len() == 0 {
        seq![]
    } else {
        without_depth(s.drop_last(), d) + if s.last().depth != d {
            seq![s.last()]
        } else {
            seq![]
        }
    }
}

/// Closing the scope at the current depth: every owner declared in it is
/// dropped (a violation for each of its borrows that outlives it), and every
/// binding declared in it is forgotten.
pub open spec fn spec_exit_scope(st: ScanV, line: nat) -> ScanV {
    ScanV {
        errors: st.errors + exit_errors(st.owners, st.borrows, st.depth, line),
        owners: without_depth(st.owners, st.depth),
        borrows: without_depth(st.borrows, st.depth),
        ..st
    }
}

pub open spec fn owner_drop_errors(o: DeclV, var: Seq<char>, bs: Seq<DeclV>, line: nat) -> Seq<
    (nat, Seq<char>),
>
    decreases bs.len(),
{
    if bs.len() == 0 {
        seq![]
    } else {
        owner_drop_errors(o, var, bs.drop_last(), line) + if bs.last().label == o.label
            && bs.last().line < line {
            seq![(line, drop_message(o, var, bs.last()))]
        } else {
            seq![]
        }
    }
}

pub open spec fn drop_errors(os: Seq<DeclV>, var: Seq<char>, bs: Seq<DeclV>, line: nat) -> Seq<
    (nat, Seq<char>),
>
    decreases os.len(),
{
    if os.len() == 0 {
        seq![]
    } else {
        drop_errors(os.drop_last(), var, bs, line) + if os.last().var == var {
            owner_drop_errors(os.last(), var, bs, line)
        } else {
            seq![]
        }
    }
}

/// `drop(var)` at `line`: a violation for every owner named `var` and every
/// borrow with its label declared on an earlier line.
pub open spec fn spec_check_drop(st: ScanV, var: Seq<char>, line: nat) -> ScanV {
    ScanV { errors: st.errors + drop_errors(st.owners, var, st.borrows, line), ..st }
}

/// The first owner with the given name.
pub open spec fn first_owner_named(os: Seq<DeclV>, name: Seq<char>) -> Option<DeclV>
    decreases os.len(),
{
    if os.len() == 0 {
        None
    } else if os[0].var == name {
        Some(os[0])
    } else {
        first_owner_named(os.drop_first(), name)
    }
}

pub open spec fn moved_errors(o: DeclV, bs: Seq<DeclV>, line: nat) -> Seq<(nat, Seq<char>)>
    decreases bs.len(),
{
    if bs.len() == 0 {
        seq![]
    } else {
        moved_errors(o, bs.drop_last(), line) + if bs.last().label == o.label {
            seq![(line, moved_message(o, bs.last()))]
        } else {
            seq![]
        }
    }
}

pub open spec fn args_moved_errors(
    os: Seq<DeclV>,
    bs: Seq<DeclV>,
    args: Seq<Seq<char>>,
    line: nat,
) -> Seq<(nat, Seq<char>)>
    decreases args.len(),
{
    if args.len() == 0 {
        seq![]
    } else {
        let a = seq_trim(args.last());
        args_moved_errors(os, bs, args.drop_last(), line) + if !spec_is_ident(a) {
            seq![]
        } else {
            match first_owner_named(os, a) {
                None => seq![],
                Some(o) => moved_errors(o, bs, line),
            }
        }
    }
}

/// A call `f(args)` with `f` a plain name (not a safe function or a
/// keyword): each argument that names an owner moves it, a violation for
/// every borrow with the owner's label.
pub open spec fn owner_used_errors(st: ScanV, code: Seq<char>, line: nat) -> Seq<
    (nat, Seq<char>),
> {
    let c = seq_trim(code);
    match seq_find_char(c, '(') {
        None => seq![],
        Some(lp) => {
            let fn_name = seq_trim(c.take(lp));
            if fn_name.contains(' ') || fn_name.contains('=') || fn_name.len() == 0 {
                seq![]
            } else if spec_is_safe_fn(fn_name) {
                seq![]
            } else if spec_is_keyword(fn_name) {
                seq![]
            } else {
                match spec_extract_paren_body(c.skip(lp)) {
                    None => seq![],
                    Some(args) => args_moved_errors(
                        st.owners,
                        st.borrows,
                        spec_split_top_level_commas(args),
                        line,
                    ),
                }
            }
        },
    }
}

pub open spec fn spec_check_owner_used(st: ScanV, code: Seq<char>, line: nat) -> ScanV {
    ScanV { errors: st.errors + owner_used_errors(st, code, line), ..st }
}

/// The bindings other than `var` declared at depth `d`.
pub open spec fn without_var_at(s: Seq<DeclV>, var: Seq<char>, d: nat) -> Seq<DeclV>
    decreases s.len(),
{
    if s.len() == 0 {
        seq![]
    } else {
        without_var_at(s.drop_last(), var, d) + if !(s.last().var == var && s.last().depth == d) {
            seq![s.last()]
        } else {
            seq![]
        }
    }
}

/// A new binding of `var` in the current scope: it shadows any owner or
/// borrow of that name declared in the same scope.
pub open spec fn spec_declare(st: ScanV, var: Seq<char>) -> ScanV {
    ScanV {
        vars: st.vars.insert(var, st.depth),
        owners: without_var_at(st.owners, var, st.depth),
        borrows: without_var_at(st.borrows, var, st.depth),
        ..st
    }
}

pub open spec fn declare_all(st: ScanV, vars: Seq<Seq<char>>) -> ScanV
    decreases vars.len(),
{
    if vars.len() == 0 {
        st
    } else {
        spec_declare(declare_all(st, vars.drop_last()), vars.last())
    }
}

/// One statement: an annotated `let` (owner or borrow), a plain or
/// destructuring `let`, a `for` header, an annotated assignment (a borrow
/// at the depth where the name was declared, if shallower), `drop(..)`, or
/// anything else (checked as a call that may move owners).
pub open spec fn spec_analyze_segment(st: ScanV, code: Seq<char>, line: nat) -> ScanV {
    match spec_parse_lt_let(code) {
        Some((var, expr, label)) => {
            let st1 = spec_declare(st, var);
            let decl = DeclV { var, label, line, depth: st.depth };
            if spec_is_pointer_expr(expr) {
                ScanV { borrows: st1.borrows.push(decl), ..st1 }
            } else {
                ScanV { owners: st1.owners.push(decl), ..st1 }
            }
        },
        None => match spec_parse_destructure(code) {
            Some(vars) => declare_all(st, vars),
            None => match spec_parse_let(code) {
                Some(var) => spec_declare(st, var),
                None => match spec_parse_for(code) {
                    Some(var) => spec_declare(st, var),
                    None => match spec_parse_lt_assign(code) {
                        Some((var, _expr, label)) => {
                            let decl_d = if st.vars.contains_key(var) {
                                st.vars[var]
                            } else {
                                st.depth
                            };
                            let eff_d = if decl_d < st.depth {
                                decl_d
                            } else {
                                st.depth
                            };
                            ScanV {
                                borrows: st.borrows.push(
                                    DeclV { var, label, line, depth: eff_d },
                                ),
                                ..st
                            }
                        },
                        None => match spec_parse_drop(code) {
                            Some(var) => spec_check_drop(st, var, line),
                            None => spec_check_owner_used(st, code, line),
                        },
                    },
                },
            },
        },
    }
}

// ------------------------------------------------------------------
// Executable state
// ------------------------------------------------------------------

pub struct Owner {
    pub var: Vec<char>,
    pub label: Vec<char>,
    pub line: usize,
    pub depth: usize,
}

pub struct Borrow {
    pub var: Vec<char>,
    pub label: Vec<char>,
    pub line: usize,
    pub depth: usize,
}

impl View for Owner {
    type V = DeclV;

    open spec fn view(&self) -> DeclV {
        DeclV { var: self.var@, label: self.label@, line: self.line as nat, depth: self.depth as nat }
    }
}

impl View for Borrow {
    type V = DeclV;

    open spec fn view(&self) -> DeclV {
        DeclV { var: self.var@, label: self.label@, line: self.line as nat, depth: self.depth as nat }
    }
}

pub struct Scanner {
    pub depth: usize,
    /// Declarations in order; the last one of a name gives its depth.
    pub var_depth: Vec<(Vec<char>, usize)>,
    pub owners: Vec<Owner>,
    pub borrows: Vec<Borrow>,
    pub errors: Vec<(usize, Vec<char>)>,
}

/// The depth of the last declaration of `k`.
pub open spec fn lookup_depth(l: Seq<(Vec<char>, usize)>, k: Seq<char>) -> Option<nat>
    decreases l.len(),
{
    if l.len() == 0 {
        None
    } else if l.last().0@ == k {
        Some(l.last().1 as nat)
    } else {
        lookup_depth(l.drop_last(), k)
    }
}

pub open spec fn depth_map(l: Seq<(Vec<char>, usize)>) -> Map<Seq<char>, nat> {
    Map::new(|k: Seq<char>| lookup_depth(l, k) is Some, |k: Seq<char>| lookup_depth(l, k)->0)
}

pub open spec fn owners_view(v: Seq<Owner>) -> Seq<DeclV> {
    v.map_values(|o: Owner| o@)
}

pub open spec fn borrows_view(v: Seq<Borrow>) -> Seq<DeclV> {
    v.map_values(|b: Borrow| b@)
}

pub open spec fn errors_view(v: Seq<(usize, Vec<char>)>) -> Seq<(nat, Seq<char>)> {
    v.map_values(|e: (usize, Vec<char>)| (e.0 as nat, e.1@))
}

impl View for Scanner {
    type V = ScanV;

    open spec fn view(&self) -> ScanV {
        ScanV {
            depth: self.depth as nat,
            vars: depth_map(self.var_depth@),
            owners: owners_view(self.owners@),
            borrows: borrows_view(self.borrows@),
            errors: errors_view(self.errors@),
        }
    }
}

fn clone_chars(v: &Vec<char>) -> (r: Vec<char>)
    ensures
        r@ == v@,
{
    slice_to_vec_chars(v.as_slice())
}

fn scope_exit_msg(o: &Owner, b: &Borrow) -> (m: Vec<char>)
    ensures
        m@ == scope_exit_message(o@, b@),
{
    let mut m: Vec<char> = Vec::new();
    push_str(&mut m, "[");
    push_all(&mut m, o.label.as_slice());
    push_str(&mut m, "] `");
    push_all(&mut m, o.var.as_slice());
    push_str(&mut m, "` (declared at line ");
    push_all(&mut m, decimal(o.line).as_slice());
    push_str(&mut m, ") dropped at end of scope but `");
    push_all(&mut m, b.var.as_slice());
    push_str(&mut m, "` (declared at line ");
    push_all(&mut m, decimal(b.line).as_slice());
    push_str(&mut m, ") still has active borrow(s)");
    assert(m@ =~= scope_exit_message(o@, b@));
    m
}

fn moved_msg(o: &Owner, b: &Borrow) -> (m: Vec<char>)
    ensures
        m@ == moved_message(o@, b@),
{
    let mut m: Vec<char> = Vec::new();
    push_str(&mut m, "[");
    push_all(&mut m, o.label.as_slice());
    push_str(&mut m, "] `");
    push_all(&mut m, o.var.as_slice());
    push_str(&mut m, "` passed to function while `");
    push_all(&mut m, b.var.as_slice());
    push_str(&mut m, "` (declared at line ");
    push_all(&mut m, decimal(b.line).as_slice());
    push_str(&mut m, ") has active borrow(s)");
    assert(m@ =~= moved_message(o@, b@));
    m
}

fn drop_msg(o: &Owner, var: &[char], b: &Borrow) -> (m: Vec<char>)
    ensures
        m@ == drop_message(o@, var@, b@),
{
    let mut m: Vec<char> = Vec::new();
    push_str(&mut m, "[");
    push_all(&mut m, o.label.as_slice());
    push_str(&mut m, "] `drop(");
    push_all(&mut m, var);
    push_str(&mut m, ")` called but `");
    push_all(&mut m, b.var.as_slice());
    push_str(&mut m, "` (declared at line ");
    push_all(&mut m, decimal(b.line).as_slice());
    push_str(&mut m, ") has active borrow(s)");
    assert(m@ =~= drop_message(o@, var@, b@));
    m
}

impl Scanner {
    pub fn new() -> (s: Scanner)
        ensures
            s@ == initial_scan(),
    {
        let s = Scanner {
            depth: 0,
            var_depth: Vec::new(),
            owners: Vec::new(),
            borrows: Vec::new(),
            errors: Vec::new(),
        };
        assert(s@.vars =~= Map::<Seq<char>, nat>::empty());
        assert(s@.owners =~= Seq::<DeclV>::empty());
        assert(s@.borrows =~= Seq::<DeclV>::empty());
        assert(s@.errors =~= Seq::<(nat, Seq<char>)>::empty());
        s
    }

    fn push_error(&mut self, line: usize, msg: Vec<char>)
        ensures
            final(self)@ == (ScanV { errors: old(self)@.errors.push((line as nat, msg@)), ..old(self)@ }),
            final(self).depth == old(self).depth,
            final(self).var_depth@ == old(self).var_depth@,
            final(self).owners@ == old(self).owners@,
            final(self).borrows@ == old(self).borrows@,
    {
        let ghost before = self@.errors;
        self.errors.push((line, msg));
        assert(self@.errors =~= before.push((line as nat, msg@)));
    }

    /// The depth at which `var` was last declared.
    pub fn declared_depth(&self, var: &[char]) -> (r: Option<usize>)
        ensures
            r matches Some(d) ==> self@.vars.contains_key(var@) && self@.vars[var@] == d as nat,
            r is None ==> !self@.vars.contains_key(var@),
    {
        let mut j = self.var_depth.len();
        assert(self.var_depth@.take(j as int) =~= self.var_depth@);
        while j > 0
            invariant
                j <= self.var_depth@.len(),
                lookup_depth(self.var_depth@, var@) == lookup_depth(self.var_depth@.take(j as int), var@),
            decreases j,
        {
            let ghost l = self.var_depth@.take(j as int);
            assert(l.drop_last() =~= self.var_depth@.take(j - 1));
            if chars_eq(self.var_depth[j - 1].0.as_slice(), var) {
                return Some(self.var_depth[j - 1].1);
            }
            j -= 1;
        }
        None
    }

    /// `var` declared (again) in the current scope.
    fn declare(&mut self, var: &[char])
        ensures
            final(self)@ == spec_declare(old(self)@, var@),
            final(self).depth == old(self).depth,
    {
        let d = self.depth;
        let ghost l = self.var_depth@;
        self.var_depth.push((slice_to_vec_chars(var), d));
        assert(self.var_depth@.drop_last() =~= l);
        assert(depth_map(self.var_depth@) =~= depth_map(l).insert(var@, d as nat));
        self.remove_owner_var_at(var, d);
        self.remove_borrow_var_at(var, d);
    }

    fn remove_owner_var_at(&mut self, var: &[char], d: usize)
        ensures
            final(self)@ == (ScanV { owners: without_var_at(old(self)@.owners, var@, d as nat), ..old(self)@ }),
    {
        let ghost orig = owners_view(self.owners@);
        let ghost mut k: int = 0;
        let mut i: usize = 0;
        assert(orig.take(0) =~= Seq::<DeclV>::empty());
        assert(owners_view(self.owners@).take(0) =~= Seq::<DeclV>::empty());
        assert(owners_view(self.owners@).skip(0) =~= orig.skip(0));
        while i < self.owners.len()
            invariant
                0 <= k <= orig.len(),
                i <= self.owners@.len(),
                owners_view(self.owners@).take(i as int) == without_var_at(orig.take(k), var@, d as nat),
                owners_view(self.owners@).skip(i as int) == orig.skip(k),
                self.depth == old(self).depth,
                self.var_depth@ == old(self).var_depth@,
                self.borrows@ == old(self).borrows@,
                self.errors@ == old(self).errors@,
            decreases self.owners@.len() - i,
        {
            let ghost cur = owners_view(self.owners@);
            assert(cur.skip(i as int).len() > 0);
            assert(k < orig.len());
            assert(orig.skip(k)[0] == cur[i as int]);
            assert(orig.skip(k + 1) =~= orig.skip(k).drop_first());
            assert(cur.skip(i + 1) =~= cur.skip(i as int).drop_first());
            assert(orig.take(k + 1).drop_last() =~= orig.take(k));
            assert(orig.take(k + 1).last() == cur[i as int]);
            if chars_eq(self.owners[i].var.as_slice(), var) && self.owners[i].depth == d {
                self.owners.remove(i);
                assert(owners_view(self.owners@).take(i as int) =~= cur.take(i as int));
                assert(owners_view(self.owners@).skip(i as int) =~= cur.skip(i + 1));
            } else {
                assert(owners_view(self.owners@).take(i + 1) =~= cur.take(i as int) + seq![cur[i as int]]);
                assert(owners_view(self.owners@).skip(i + 1) =~= orig.skip(k + 1));
                i += 1;
            }
            proof {
                k = k + 1;
            }
        }
        assert(orig.skip(k).len() == 0);
        assert(orig.take(k) =~= orig);
        assert(owners_view(self.owners@).take(i as int) =~= owners_view(self.owners@));
    }

    fn remove_borrow_var_at(&mut self, var: &[char], d: usize)
        ensures
            final(self)@ == (ScanV { borrows: without_var_at(old(self)@.borrows, var@, d as nat), ..old(self)@ }),
    {
        let ghost orig = borrows_view(self.borrows@);
        let ghost mut k: int = 0;
        let mut i: usize = 0;
        assert(orig.take(0) =~= Seq::<DeclV>::empty());
        assert(borrows_view(self.borrows@).take(0) =~= Seq::<DeclV>::empty());
        assert(borrows_view(self.borrows@).skip(0) =~= orig.skip(0));
        while i < self.borrows.len()
            invariant
                0 <= k <= orig.len(),
                i <= self.borrows@.len(),
                borrows_view(self.borrows@).take(i as int) == without_var_at(orig.take(k), var@, d as nat),
                borrows_view(self.borrows@).skip(i as int) == orig.skip(k),
                self.depth == old(self).depth,
                self.var_depth@ == old(self).var_depth@,
                self.owners@ == old(self).owners@,
                self.errors@ == old(self).errors@,
            decreases self.borrows@.len() - i,
        {
            let ghost cur = borrows_view(self.borrows@);
            assert(cur.skip(i as int).len() > 0);
            assert(k < orig.len());
            assert(orig.skip(k)[0] == cur[i as int]);
            assert(orig.skip(k + 1) =~= orig.skip(k).drop_first());
            assert(cur.skip(i + 1) =~= cur.skip(i as int).drop_first());
            assert(orig.take(k + 1).drop_last() =~= orig.take(k));
            assert(orig.take(k + 1).last() == cur[i as int]);
            if chars_eq(self.borrows[i].var.as_slice(), var) && self.borrows[i].depth == d {
                self.borrows.remove(i);
                assert(borrows_view(self.borrows@).take(i as int) =~= cur.take(i as int));
                assert(borrows_view(self.borrows@).skip(i as int) =~= cur.skip(i + 1));
            } else {
                assert(borrows_view(self.borrows@).take(i + 1) =~= cur.take(i as int) + seq![cur[i as int]]);
                assert(borrows_view(self.borrows@).skip(i + 1) =~= orig.skip(k + 1));
                i += 1;
            }
            proof {
                k = k + 1;
            }
        }
        assert(orig.skip(k).len() == 0);
        assert(orig.take(k) =~= orig);
        assert(borrows_view(self.borrows@).take(i as int) =~= borrows_view(self.borrows@));
    }

    fn remove_owners_at_depth(&mut self, d: usize)
        ensures
            final(self)@ == (ScanV { owners: without_depth(old(self)@.owners, d as nat), ..old(self)@ }),
    {
        let ghost orig = owners_view(self.owners@);
        let ghost mut k: int = 0;
        let mut i: usize = 0;
        assert(orig.take(0) =~= Seq::<DeclV>::empty());
        assert(owners_view(self.owners@).take(0) =~= Seq::<DeclV>::empty());
        assert(owners_view(self.owners@).skip(0) =~= orig.skip(0));
        while i < self.owners.len()
            invariant
                0 <= k <= orig.len(),
                i <= self.owners@.len(),
                owners_view(self.owners@).take(i as int) == without_depth(orig.take(k), d as nat),
                owners_view(self.owners@).skip(i as int) == orig.skip(k),
                self.depth == old(self).depth,
                self.var_depth@ == old(self).var_depth@,
                self.borrows@ == old(self).borrows@,
                self.errors@ == old(self).errors@,
            decreases self.owners@.len() - i,
        {
            let ghost cur = owners_view(self.owners@);
            assert(cur.skip(i as int).len() > 0);
            assert(k < orig.len());
            assert(orig.skip(k)[0] == cur[i as int]);
            assert(orig.skip(k + 1) =~= orig.skip(k).drop_first());
            assert(cur.skip(i + 1) =~= cur.skip(i as int).drop_first());
            assert(orig.take(k + 1).drop_last() =~= orig.take(k));
            assert(orig.take(k + 1).last() == cur[i as int]);
            if self.owners[i].depth == d {
                self.owners.remove(i);
                assert(owners_view(self.owners@).take(i as int) =~= cur.take(i as int));
                assert(owners_view(self.owners@).skip(i as int) =~= cur.skip(i + 1));
            } else {
                assert(owners_view(self.owners@).take(i + 1) =~= cur.take(i as int) + seq![cur[i as int]]);
                assert(owners_view(self.owners@).skip(i + 1) =~= orig.skip(k + 1));
                i += 1;
            }
            proof {
                k = k + 1;
            }
        }
        assert(orig.skip(k).len() == 0);
        assert(orig.take(k) =~= orig);
        assert(owners_view(self.owners@).take(i as int) =~= owners_view(self.owners@));
    }

    fn remove_borrows_at_depth(&mut self, d: usize)
        ensures
            final(self)@ == (ScanV { borrows: without_depth(old(self)@.borrows, d as nat), ..old(self)@ }),
    {
        let ghost orig = borrows_view(self.borrows@);
        let ghost mut k: int = 0;
        let mut i: usize = 0;
        assert(orig.take(0) =~= Seq::<DeclV>::empty());
        assert(borrows_view(self.borrows@).take(0) =~= Seq::<DeclV>::empty());
        assert(borrows_view(self.borrows@).skip(0) =~= orig.skip(0));
        while i < self.borrows.len()
            invariant
                0 <= k <= orig.len(),
                i <= self.borrows@.len(),
                borrows_view(self.borrows@).take(i as int) == without_depth(orig.take(k), d as nat),
                borrows_view(self.borrows@).skip(i as int) == orig.skip(k),
                self.depth == old(self).depth,
                self.var_depth@ == old(self).var_depth@,
                self.owners@ == old(self).owners@,
                self.errors@ == old(self).errors@,
            decreases self.borrows@.len() - i,
        {
            let ghost cur = borrows_view(self.borrows@);
            assert(cur.skip(i as int).len() > 0);
            assert(k < orig.len());
            assert(orig.skip(k)[0] == cur[i as int]);
            assert(orig.skip(k + 1) =~= orig.skip(k).drop_first());
            assert(cur.skip(i + 1) =~= cur.skip(i as int).drop_first());
            assert(orig.take(k + 1).drop_last() =~= orig.take(k));
            assert(orig.take(k + 1).last() == cur[i as int]);
            if self.borrows[i].depth == d {
                self.borrows.remove(i);
                assert(borrows_view(self.borrows@).take(i as int) =~= cur.take(i as int));
                assert(borrows_view(self.borrows@).skip(i as int) =~= cur.skip(i + 1));
            } else {
                assert(borrows_view(self.borrows@).take(i + 1) =~= cur.take(i as int) + seq![cur[i as int]]);
                assert(borrows_view(self.borrows@).skip(i + 1) =~= orig.skip(k + 1));
                i += 1;
            }
            proof {
                k = k + 1;
            }
        }
        assert(orig.skip(k).len() == 0);
        assert(orig.take(k) =~= orig);
        assert(borrows_view(self.borrows@).take(i as int) =~= borrows_view(self.borrows@));
    }

    /// Closes the scope at the current depth (the depth itself is left to
    /// the caller).
    pub fn exit_scope(&mut self, line: usize)
        ensures
            final(self)@ == spec_exit_scope(old(self)@, line as nat),
            final(self).depth == old(self).depth,
    {
        let d = self.depth;
        let ghost os = owners_view(self.owners@);
        let ghost bs = borrows_view(self.borrows@);
        let ghost e0 = self@.errors;
        let mut i: usize = 0;
        assert(os.take(0) =~= Seq::<DeclV>::empty());
        assert(e0 + exit_errors(os.take(0), bs, d as nat, line as nat) =~= e0);
        while i < self.owners.len()
            invariant
                i <= self.owners@.len(),
                os == owners_view(self.owners@),
                bs == borrows_view(self.borrows@),
                d == self.depth,
                self.depth == old(self).depth,
                self.var_depth@ == old(self).var_depth@,
                self.owners@ == old(self).owners@,
                self.borrows@ == old(self).borrows@,
                e0 == old(self)@.errors,
                self@.errors == e0 + exit_errors(os.take(i as int), bs, d as nat, line as nat),
            decreases self.owners@.len() - i,
        {
            assert(os.take(i + 1).drop_last() =~= os.take(i as int));
            assert(os.take(i + 1).last() == os[i as int]);
            let ghost ei = self@.errors;
            if self.owners[i].depth == d {
                let mut j: usize = 0;
                assert(bs.take(0) =~= Seq::<DeclV>::empty());
                assert(ei + owner_exit_errors(os[i as int], bs.take(0), d as nat, line as nat) =~= ei);
                while j < self.borrows.len()
                    invariant
                        i < self.owners@.len(),
                        j <= self.borrows@.len(),
                        os == owners_view(self.owners@),
                        bs == borrows_view(self.borrows@),
                        d == self.depth,
                        self.depth == old(self).depth,
                        self.var_depth@ == old(self).var_depth@,
                        self.owners@ == old(self).owners@,
                        self.borrows@ == old(self).borrows@,
                        self@.errors == ei + owner_exit_errors(os[i as int], bs.take(j as int), d as nat, line as nat),
                    decreases self.borrows@.len() - j,
                {
                    assert(bs.take(j + 1).drop_last() =~= bs.take(j as int));
                    assert(bs.take(j + 1).last() == bs[j as int]);
                    let o = &self.owners[i];
                    let b = &self.borrows[j];
                    let alive = b.depth < d || (b.depth == d && b.line < o.line);
                    if chars_eq(b.label.as_slice(), o.label.as_slice()) && alive {
                        let m = scope_exit_msg(o, b);
                        self.push_error(line, m);
                    }
                    j += 1;
                }
                assert(bs.take(j as int) =~= bs);
            }
            i += 1;
        }
        assert(os.take(i as int) =~= os);
        self.remove_owners_at_depth(d);
        self.remove_borrows_at_depth(d);
    }

    /// `drop(var)` at `line`.
    pub fn check_drop(&mut self, var: &[char], line: usize)
        ensures
            final(self)@ == spec_check_drop(old(self)@, var@, line as nat),
            final(self).depth == old(self).depth,
    {
        let ghost os = owners_view(self.owners@);
        let ghost bs = borrows_view(self.borrows@);
        let ghost e0 = self@.errors;
        let mut i: usize = 0;
        assert(os.take(0) =~= Seq::<DeclV>::empty());
        assert(e0 + drop_errors(os.take(0), var@, bs, line as nat) =~= e0);
        while i < self.owners.len()
            invariant
                i <= self.owners@.len(),
                os == owners_view(self.owners@),
                bs == borrows_view(self.borrows@),
                self.depth == old(self).depth,
                self.var_depth@ == old(self).var_depth@,
                self.owners@ == old(self).owners@,
                self.borrows@ == old(self).borrows@,
                e0 == old(self)@.errors,
                self@.errors == e0 + drop_errors(os.take(i as int), var@, bs, line as nat),
            decreases self.owners@.len() - i,
        {
            assert(os.take(i + 1).drop_last() =~= os.take(i as int));
            assert(os.take(i + 1).last() == os[i as int]);
            let ghost ei = self@.errors;
            if chars_eq(self.owners[i].var.as_slice(), var) {
                let mut j: usize = 0;
                assert(bs.take(0) =~= Seq::<DeclV>::empty());
                assert(ei + owner_drop_errors(os[i as int], var@, bs.take(0), line as nat) =~= ei);
                while j < self.borrows.len()
                    invariant
                        i < self.owners@.len(),
                        j <= self.borrows@.len(),
                        os == owners_view(self.owners@),
                        bs == borrows_view(self.borrows@),
                        self.depth == old(self).depth,
                        self.var_depth@ == old(self).var_depth@,
                        self.owners@ == old(self).owners@,
                        self.borrows@ == old(self).borrows@,
                        self@.errors == ei + owner_drop_errors(os[i as int], var@, bs.take(j as int), line as nat),
                    decreases self.borrows@.len() - j,
                {
                    assert(bs.take(j + 1).drop_last() =~= bs.take(j as int));
                    assert(bs.take(j + 1).last() == bs[j as int]);
                    let o = &self.owners[i];
                    let b = &self.borrows[j];
                    if chars_eq(b.label.as_slice(), o.label.as_slice()) && b.line < line {
                        let m = drop_msg(o, var, b);
                        self.push_error(line, m);
                    }
                    j += 1;
                }
                assert(bs.take(j as int) =~= bs);
            }
            i += 1;
        }
        assert(os.take(i as int) =~= os);
    }

    /// The index of the first owner named `name`.
    fn first_owner(&self, name: &[char]) -> (r: Option<usize>)
        ensures
            r matches Some(k) ==> k < self.owners@.len() && first_owner_named(self@.owners, name@)
                == Some(self@.owners[k as int]),
            r is None ==> first_owner_named(self@.owners, name@) is None,
    {
        let ghost os = self@.owners;
        let mut i: usize = 0;
        assert(os.skip(0) =~= os);
        while i < self.owners.len()
            invariant
                i <= self.owners@.len(),
                os == self@.owners,
                first_owner_named(os, name@) == first_owner_named(os.skip(i as int), name@),
            decreases self.owners@.len() - i,
        {
            assert(os.skip(i as int)[0] == os[i as int]);
            if chars_eq(self.owners[i].var.as_slice(), name) {
                return Some(i);
            }
            assert(os.skip(i as int).drop_first() =~= os.skip(i + 1));
            i += 1;
        }
        None
    }

    /// The violations for moving owner number `oi` at `line`.
    fn report_moved(&mut self, oi: usize, line: usize)
        requires
            oi < old(self).owners@.len(),
        ensures
            final(self)@ == (ScanV {
                errors: old(self)@.errors + moved_errors(old(self)@.owners[oi as int], old(self)@.borrows, line as nat),
                ..old(self)@
            }),
    {
        let ghost bs = borrows_view(self.borrows@);
        let ghost o = self@.owners[oi as int];
        let ghost e0 = self@.errors;
        let mut j: usize = 0;
        assert(bs.take(0) =~= Seq::<DeclV>::empty());
        assert(e0 + moved_errors(o, bs.take(0), line as nat) =~= e0);
        while j < self.borrows.len()
            invariant
                oi < self.owners@.len(),
                j <= self.borrows@.len(),
                o == self@.owners[oi as int],
                bs == borrows_view(self.borrows@),
                self.depth == old(self).depth,
                self.var_depth@ == old(self).var_depth@,
                self.owners@ == old(self).owners@,
                self.borrows@ == old(self).borrows@,
                e0 == old(self)@.errors,
                self@.errors == e0 + moved_errors(o, bs.take(j as int), line as nat),
            decreases self.borrows@.len() - j,
        {
            assert(bs.take(j + 1).drop_last() =~= bs.take(j as int));
            assert(bs.take(j + 1).last() == bs[j as int]);
            let ow = &self.owners[oi];
            let b = &self.borrows[j];
            if chars_eq(b.label.as_slice(), ow.label.as_slice()) {
                let m = moved_msg(ow, b);
                self.push_error(line, m);
            }
            j += 1;
        }
        assert(bs.take(j as int) =~= bs);
    }

    /// A statement that may pass owners to a function.
    pub fn check_owner_used(&mut self, code: &[char], line: usize)
        ensures
            final(self)@ == spec_check_owner_used(old(self)@, code@, line as nat),
            final(self).depth == old(self).depth,
    {
        let ghost st = self@;
        let c = trim(code);
        let lparen = match find_char(c, '(') {
            Some(p) => p,
            None => {
                assert(self@.errors =~= st.errors + Seq::<(nat, Seq<char>)>::empty());
                return;
            },
        };
        proof {
            lemma_find_char_from(c@, '(', 0);
        }
        let head = &c[0..lparen];
        assert(head@ =~= c@.take(lparen as int));
        let fn_name = trim(head);
        if contains_char(fn_name, ' ') || contains_char(fn_name, '=') || fn_name.len() == 0 {
            assert(self@.errors =~= st.errors + Seq::<(nat, Seq<char>)>::empty());
            return;
        }
        if is_safe_fn(fn_name) {
            assert(self@.errors =~= st.errors + Seq::<(nat, Seq<char>)>::empty());
            return;
        }
        if is_keyword(fn_name) {
            assert(self@.errors =~= st.errors + Seq::<(nat, Seq<char>)>::empty());
            return;
        }
        let call = &c[lparen..c.len()];
        assert(call@ =~= c@.skip(lparen as int));
        let args = match extract_paren_body(call) {
            Some(v) => v,
            None => {
                assert(self@.errors =~= st.errors + Seq::<(nat, Seq<char>)>::empty());
                return;
            },
        };
        self.report_moved_args(args, line);
    }

    /// The violations for the arguments `args` of a call at `line`.
    pub fn report_moved_args(&mut self, args: &[char], line: usize)
        ensures
            final(self)@ == (ScanV {
                errors: old(self)@.errors + args_moved_errors(
                    old(self)@.owners,
                    old(self)@.borrows,
                    spec_split_top_level_commas(args@),
                    line as nat,
                ),
                ..old(self)@
            }),
            final(self).depth == old(self).depth,
    {
        let ghost st = self@;
        let parts = split_top_level_commas(args);
        let ghost ps = views(parts@);
        let mut k: usize = 0;
        assert(ps.take(0) =~= Seq::<Seq<char>>::empty());
        assert(st.errors + args_moved_errors(st.owners, st.borrows, ps.take(0), line as nat) =~= st.errors);
        while k < parts.len()
            invariant
                k <= parts@.len(),
                ps == views(parts@),
                self.depth == st.depth,
                self@.vars == st.vars,
                self@.owners == st.owners,
                self@.borrows == st.borrows,
                self@.errors == st.errors + args_moved_errors(st.owners, st.borrows, ps.take(k as int), line as nat),
            decreases parts@.len() - k,
        {
            assert(ps.take(k + 1).drop_last() =~= ps.take(k as int));
            assert(ps.take(k + 1).last() == parts@[k as int]@);
            let arg = trim(parts[k].as_slice());
            if is_ident_chars(arg) {
                match self.first_owner(arg) {
                    Some(oi) => {
                        self.report_moved(oi, line);
                    },
                    None => {
                        assert(self@.errors =~= self@.errors + Seq::<(nat, Seq<char>)>::empty());
                    },
                }
            } else {
                assert(self@.errors =~= self@.errors + Seq::<(nat, Seq<char>)>::empty());
            }
            k += 1;
        }
        assert(ps.take(k as int) =~= ps);
    }

    fn declare_each(&mut self, vars: &Vec<Vec<char>>)
        ensures
            final(self)@ == declare_all(old(self)@, views(vars@)),
            final(self).depth == old(self).depth,
    {
        let ghost vs = views(vars@);
        let mut i: usize = 0;
        assert(vs.take(0) =~= Seq::<Seq<char>>::empty());
        while i < vars.len()
            invariant
                i <= vars@.len(),
                vs == views(vars@),
                self.depth == old(self).depth,
                self@ == declare_all(old(self)@, vs.take(i as int)),
            decreases vars@.len() - i,
        {
            assert(vs.take(i + 1).drop_last() =~= vs.take(i as int));
            assert(vs.take(i + 1).last() == vars@[i as int]@);
            self.declare(vars[i].as_slice());
            i += 1;
        }
        assert(vs.take(i as int) =~= vs);
    }

    /// Analyses one statement at `line`.
    pub fn analyze_segment(&mut self, code: &[char], line: usize)
        ensures
            final(self)@ == spec_analyze_segment(old(self)@, code@, line as nat),
            final(self).depth == old(self).depth,
    {
        if let Some((var, expr, label)) = parse_lt_let(code) {
            let d = self.depth;
            self.declare(var.as_slice());
            if is_pointer_expr(expr.as_slice()) {
                let ghost before = self@.borrows;
                let ghost decl = DeclV { var: var@, label: label@, line: line as nat, depth: d as nat };
                self.borrows.push(Borrow { var, label, line, depth: d });
                assert(self@.borrows =~= before.push(decl));
            } else {
                let ghost before = self@.owners;
                let ghost decl = DeclV { var: var@, label: label@, line: line as nat, depth: d as nat };
                self.owners.push(Owner { var, label, line, depth: d });
                assert(self@.owners =~= before.push(decl));
            }
            return;
        }
        if let Some(vars) = parse_destructure(code) {
            self.declare_each(&vars);
            return;
        }
        if let Some(var) = parse_let(code) {
            self.declare(var.as_slice());
            return;
        }
        if let Some(var) = parse_for(code) {
            self.declare(var.as_slice());
            return;
        }
        if let Some((var, _expr, label)) = parse_lt_assign(code) {
            let decl_d = match self.declared_depth(var.as_slice()) {
                Some(d) => d,
                None => self.depth,
            };
            let eff_d = if decl_d < self.depth {
                decl_d
            } else {
                self.depth
            };
            let ghost before = self@.borrows;
            let ghost decl = DeclV { var: var@, label: label@, line: line as nat, depth: eff_d as nat };
            self.borrows.push(Borrow { var, label, line, depth: eff_d });
            assert(self@.borrows =~= before.push(decl));
            return;
        }
        if let Some(var) = parse_drop(code) {
            self.check_drop(var.as_slice(), line);
            return;
        }
        self.check_owner_used(code, line);
    }
}


// ------------------------------------------------------------------
// Borrows and drops
// ------------------------------------------------------------------

/// An annotated `let` of a listed borrow form records a borrow, at the
/// current depth and on its line, and no owner: its name shadows any
/// binding of that name in the same scope.
pub proof fn law_pointer_let_is_borrow(st: ScanV, code: Seq<char>, line: nat)
    requires
        spec_parse_lt_let(code) matches Some((v, x, l)) && crate::syntax::listed_borrow_form(
            seq_trim(x),
        ),
    ensures
        ({
            let (v, x, l) = spec_parse_lt_let(code)->0;
            let after = spec_analyze_segment(st, code, line);
            &&& after.borrows == without_var_at(st.borrows, v, st.depth).push(
                DeclV { var: v, label: l, line, depth: st.depth },
            )
            &&& after.owners == without_var_at(st.owners, v, st.depth)
            &&& after.errors == st.errors
        }),
{
}

proof fn lemma_owner_drop_names(o: DeclV, var: Seq<char>, bs: Seq<DeclV>, line: nat, j: int)
    requires
        0 <= j < bs.len(),
        bs[j].label == o.label,
        bs[j].line < line,
    ensures
        owner_drop_errors(o, var, bs, line).contains((line, drop_message(o, var, bs[j]))),
    decreases bs.len(),
{
    let e = owner_drop_errors(o, var, bs, line);
    let x = (line, drop_message(o, var, bs[j]));
    if j == bs.len() - 1 {
        let prev = owner_drop_errors(o, var, bs.drop_last(), line);
        assert(e == prev + seq![x]);
        assert(e[prev.len() as int] == x);
    } else {
        assert(bs.drop_last()[j] == bs[j]);
        lemma_owner_drop_names(o, var, bs.drop_last(), line, j);
        let prev = owner_drop_errors(o, var, bs.drop_last(), line);
        let q = choose|q: int| 0 <= q < prev.len() && prev[q] == x;
        let tail = if bs.last().label == o.label && bs.last().line < line {
            seq![(line, drop_message(o, var, bs.last()))]
        } else {
            seq![]
        };
        assert(e == prev + tail);
        assert(e[q] == prev[q]);
    }
}

proof fn lemma_drop_names(os: Seq<DeclV>, var: Seq<char>, bs: Seq<DeclV>, line: nat, i: int, j: int)
    requires
        0 <= i < os.len(),
        os[i].var == var,
        0 <= j < bs.len(),
        bs[j].label == os[i].label,
        bs[j].line < line,
    ensures
        drop_errors(os, var, bs, line).contains((line, drop_message(os[i], var, bs[j]))),
    decreases os.len(),
{
    let e = drop_errors(os, var, bs, line);
    let x = (line, drop_message(os[i], var, bs[j]));
    if i == os.len() - 1 {
        lemma_owner_drop_names(os[i], var, bs, line, j);
        let prev = drop_errors(os.drop_last(), var, bs, line);
        let own = owner_drop_errors(os.last(), var, bs, line);
        assert(e == prev + own);
        let q = choose|q: int| 0 <= q < own.len() && own[q] == x;
        assert(e[prev.len() + q] == own[q]);
    } else {
        assert(os.drop_last()[i] == os[i]);
        lemma_drop_names(os.drop_last(), var, bs, line, i, j);
        let prev = drop_errors(os.drop_last(), var, bs, line);
        let q = choose|q: int| 0 <= q < prev.len() && prev[q] == x;
        let tail = if os.last().var == var {
            owner_drop_errors(os.last(), var, bs, line)
        } else {
            seq![]
        };
        assert(e == prev + tail);
        assert(e[q] == prev[q]);
    }
}

/// `drop(v)` reports, on its line, every borrow that shares its label with
/// an owner named `v` and was declared on an earlier line, naming both; and
/// it reports nothing else of that line but such pairs.
pub proof fn law_drop_reports_active_borrows(st: ScanV, v: Seq<char>, line: nat, i: int, j: int)
    requires
        0 <= i < st.owners.len(),
        st.owners[i].var == v,
        0 <= j < st.borrows.len(),
        st.borrows[j].label == st.owners[i].label,
        st.borrows[j].line < line,
    ensures
        spec_check_drop(st, v, line).errors.take(st.errors.len() as int) == st.errors,
        spec_check_drop(st, v, line).errors.skip(st.errors.len() as int).contains(
            (line, drop_message(st.owners[i], v, st.borrows[j])),
        ),
{
    lemma_drop_names(st.owners, v, st.borrows, line, i, j);
    let d = drop_errors(st.owners, v, st.borrows, line);
    let e = spec_check_drop(st, v, line).errors;
    assert(e.take(st.errors.len() as int) =~= st.errors);
    assert(e.skip(st.errors.len() as int) =~= d);
}

// ------------------------------------------------------------------
// Bindings live in open scopes
// ------------------------------------------------------------------

/// Every owner and borrow sits at most as deep as the current scope.
pub open spec fn depth_bounded(st: ScanV) -> bool {
    &&& forall|i: int| 0 <= i < st.owners.len() ==> (#[trigger] st.owners[i]).depth <= st.depth
    &&& forall|i: int| 0 <= i < st.borrows.len() ==> (#[trigger] st.borrows[i]).depth <= st.depth
}

/// All bindings at most `d` deep.
pub open spec fn all_within(s: Seq<DeclV>, d: nat) -> bool {
    forall|i: int| 0 <= i < s.len() ==> (#[trigger] s[i]).depth <= d
}

proof fn lemma_without_var_at_within(s: Seq<DeclV>, var: Seq<char>, d: nat, bound: nat)
    requires
        all_within(s, bound),
    ensures
        all_within(without_var_at(s, var, d), bound),
    decreases s.len(),
{
    if s.len() > 0 {
        lemma_without_var_at_within(s.drop_last(), var, d, bound);
        let w = without_var_at(s.drop_last(), var, d);
        let tail = if !(s.last().var == var && s.last().depth == d) {
            seq![s.last()]
        } else {
            seq![]
        };
        assert forall|i: int| 0 <= i < (w + tail).len() implies (#[trigger] (w + tail)[i]).depth
            <= bound by {
            if i < w.len() {
                assert((w + tail)[i] == w[i]);
            } else {
                assert((w + tail)[i] == tail[i - w.len()]);
            }
        }
    }
}

/// Bindings other than those of depth `d`, all at most `d` deep, are less
/// deep than `d`.
proof fn lemma_without_depth_within(s: Seq<DeclV>, d: nat)
    requires
        all_within(s, d),
    ensures
        forall|i: int|
            0 <= i < without_depth(s, d).len() ==> (#[trigger] without_depth(s, d)[i]).depth < d,
    decreases s.len(),
{
    if s.len() > 0 {
        lemma_without_depth_within(s.drop_last(), d);
        let w = without_depth(s.drop_last(), d);
        let tail = if s.last().depth != d {
            seq![s.last()]
        } else {
            seq![]
        };
        assert forall|i: int| 0 <= i < (w + tail).len() implies (#[trigger] (w + tail)[i]).depth
            < d by {
            if i < w.len() {
                assert((w + tail)[i] == w[i]);
            } else {
                assert((w + tail)[i] == tail[i - w.len()]);
            }
        }
    }
}

proof fn lemma_push_within(s: Seq<DeclV>, x: DeclV, d: nat)
    requires
        all_within(s, d),
        x.depth <= d,
    ensures
        all_within(s.push(x), d),
{
    assert forall|i: int| 0 <= i < s.push(x).len() implies (#[trigger] s.push(x)[i]).depth <= d by {
        if i < s.len() {
            assert(s.push(x)[i] == s[i]);
        }
    }
}

proof fn lemma_declare_within(st: ScanV, var: Seq<char>)
    requires
        depth_bounded(st),
    ensures
        depth_bounded(spec_declare(st, var)),
        spec_declare(st, var).depth == st.depth,
{
    lemma_without_var_at_within(st.owners, var, st.depth, st.depth);
    lemma_without_var_at_within(st.borrows, var, st.depth, st.depth);
}

proof fn lemma_declare_all_within(st: ScanV, vars: Seq<Seq<char>>)
    requires
        depth_bounded(st),
    ensures
        depth_bounded(declare_all(st, vars)),
        declare_all(st, vars).depth == st.depth,
    decreases vars.len(),
{
    if vars.len() > 0 {
        lemma_declare_all_within(st, vars.drop_last());
        lemma_declare_within(declare_all(st, vars.drop_last()), vars.last());
    }
}

/// A statement keeps every owner and borrow at most as deep as the current
/// scope, keeps the depth, and only appends violations.
pub proof fn law_statement_keeps_scopes(st: ScanV, code: Seq<char>, line: nat)
    requires
        depth_bounded(st),
    ensures
        depth_bounded(spec_analyze_segment(st, code, line)),
        spec_analyze_segment(st, code, line).depth == st.depth,
        spec_analyze_segment(st, code, line).errors.len() >= st.errors.len(),
        spec_analyze_segment(st, code, line).errors.take(st.errors.len() as int) == st.errors,
{
    crate::analyzer::lemma_analyze_segment_ok(st, code, line);
    match spec_parse_lt_let(code) {
        Some((var, expr, label)) => {
            lemma_declare_within(st, var);
            let st1 = spec_declare(st, var);
            let decl = DeclV { var, label, line, depth: st.depth };
            lemma_push_within(st1.owners, decl, st.depth);
            lemma_push_within(st1.borrows, decl, st.depth);
        },
        None => match spec_parse_destructure(code) {
            Some(vars) => {
                lemma_declare_all_within(st, vars);
            },
            None => match spec_parse_let(code) {
                Some(var) => {
                    lemma_declare_within(st, var);
                },
                None => match spec_parse_for(code) {
                    Some(var) => {
                        lemma_declare_within(st, var);
                    },
                    None => match spec_parse_lt_assign(code) {
                        Some((var, _expr, label)) => {
                            let decl_d = if st.vars.contains_key(var) {
                                st.vars[var]
                            } else {
                                st.depth
                            };
                            let eff_d = if decl_d < st.depth {
                                decl_d
                            } else {
                                st.depth
                            };
                            lemma_push_within(st.borrows, DeclV { var, label, line, depth: eff_d }, st.depth);
                        },
                        None => {},
                    },
                },
            },
        },
    }
}

/// Closing a scope leaves only bindings of the enclosing scopes; opening
/// one keeps every binding within it.
pub proof fn law_braces_keep_scopes(st: ScanV, ch: char, line: nat)
    requires
        depth_bounded(st),
    ensures
        depth_bounded(crate::analyzer::brace(st, ch, line)),
{
    if ch == '}' {
        lemma_without_depth_within(st.owners, st.depth);
        lemma_without_depth_within(st.borrows, st.depth);
    }
}

// ------------------------------------------------------------------
// Labels pair owners with borrows
// ------------------------------------------------------------------

/// No owner shares its label with a borrow.
pub open spec fn labels_apart(st: ScanV) -> bool {
    forall|i: int, j: int|
        0 <= i < st.owners.len() && 0 <= j < st.borrows.len() ==> #[trigger] st.owners[i].label
            != #[trigger] st.borrows[j].label
}

proof fn lemma_owner_unpaired(o: DeclV, bs: Seq<DeclV>, var: Seq<char>, d: nat, line: nat)
    requires
        forall|j: int| 0 <= j < bs.len() ==> (#[trigger] bs[j]).label != o.label,
    ensures
        owner_exit_errors(o, bs, d, line) == Seq::<(nat, Seq<char>)>::empty(),
        owner_drop_errors(o, var, bs, line) == Seq::<(nat, Seq<char>)>::empty(),
        moved_errors(o, bs, line) == Seq::<(nat, Seq<char>)>::empty(),
    decreases bs.len(),
{
    if bs.len() > 0 {
        lemma_owner_unpaired(o, bs.drop_last(), var, d, line);
        assert(bs[bs.len() - 1].label != o.label);
        assert(owner_exit_errors(o, bs, d, line) =~= Seq::<(nat, Seq<char>)>::empty());
        assert(owner_drop_errors(o, var, bs, line) =~= Seq::<(nat, Seq<char>)>::empty());
        assert(moved_errors(o, bs, line) =~= Seq::<(nat, Seq<char>)>::empty());
    }
}

proof fn lemma_owners_unpaired(os: Seq<DeclV>, bs: Seq<DeclV>, var: Seq<char>, d: nat, line: nat)
    requires
        forall|i: int, j: int|
            0 <= i < os.len() && 0 <= j < bs.len() ==> #[trigger] os[i].label
                != #[trigger] bs[j].label,
    ensures
        exit_errors(os, bs, d, line) == Seq::<(nat, Seq<char>)>::empty(),
        drop_errors(os, var, bs, line) == Seq::<(nat, Seq<char>)>::empty(),
    decreases os.len(),
{
    if os.len() > 0 {
        let o = os[os.len() - 1];
        assert forall|j: int| 0 <= j < bs.len() implies (#[trigger] bs[j]).label != o.label by {
            assert(os[os.len() - 1].label != bs[j].label);
        }
        lemma_owner_unpaired(o, bs, var, d, line);
        assert forall|i: int, j: int|
            0 <= i < os.drop_last().len() && 0 <= j < bs.len() implies #[trigger] os.drop_last()[i].label
                != #[trigger] bs[j].label by {
            assert(os.drop_last()[i] == os[i]);
        }
        lemma_owners_unpaired(os.drop_last(), bs, var, d, line);
        assert(exit_errors(os, bs, d, line) =~= Seq::<(nat, Seq<char>)>::empty());
        assert(drop_errors(os, var, bs, line) =~= Seq::<(nat, Seq<char>)>::empty());
    }
}

pub proof fn lemma_first_owner_named_in(os: Seq<DeclV>, name: Seq<char>)
    ensures
        first_owner_named(os, name) matches Some(o) ==> os.contains(o),
    decreases os.len(),
{
    if os.len() > 0 {
        if os[0].var == name {
            assert(os[0] == os[0]);
        } else {
            lemma_first_owner_named_in(os.drop_first(), name);
            if first_owner_named(os.drop_first(), name) is Some {
                let o = first_owner_named(os.drop_first(), name)->0;
                let k = choose|k: int| 0 <= k < os.drop_first().len() && os.drop_first()[k] == o;
                assert(os[k + 1] == o);
            }
        }
    }
}

proof fn lemma_args_unpaired(os: Seq<DeclV>, bs: Seq<DeclV>, args: Seq<Seq<char>>, line: nat)
    requires
        forall|i: int, j: int|
            0 <= i < os.len() && 0 <= j < bs.len() ==> #[trigger] os[i].label
                != #[trigger] bs[j].label,
    ensures
        args_moved_errors(os, bs, args, line) == Seq::<(nat, Seq<char>)>::empty(),
    decreases args.len(),
{
    if args.len() > 0 {
        lemma_args_unpaired(os, bs, args.drop_last(), line);
        let a = seq_trim(args.last());
        lemma_first_owner_named_in(os, a);
        match first_owner_named(os, a) {
            Some(o) => {
                let k = choose|k: int| 0 <= k < os.len() && os[k] == o;
                assert forall|j: int| 0 <= j < bs.len() implies (#[trigger] bs[j]).label != o.label by {
                    assert(os[k].label != bs[j].label);
                }
                lemma_owner_unpaired(o, bs, seq![], 0, line);
            },
            None => {},
        }
        assert(args_moved_errors(os, bs, args, line) =~= Seq::<(nat, Seq<char>)>::empty());
    }
}

/// The label pairs each owner with its borrows: where no owner shares its
/// label with a borrow, closing a scope, dropping and passing owners to a
/// call report nothing.
pub proof fn law_unpaired_labels_report_nothing(st: ScanV, var: Seq<char>, code: Seq<char>, line: nat)
    requires
        labels_apart(st),
    ensures
        spec_exit_scope(st, line).errors == st.errors,
        spec_check_drop(st, var, line).errors == st.errors,
        spec_check_owner_used(st, code, line).errors == st.errors,
{
    lemma_owners_unpaired(st.owners, st.borrows, var, st.depth, line);
    let c = seq_trim(code);
    match seq_find_char(c, '(') {
        Some(lp) => {
            match spec_extract_paren_body(c.skip(lp)) {
                Some(args) => {
                    lemma_args_unpaired(
                        st.owners,
                        st.borrows,
                        spec_split_top_level_commas(args),
                        line,
                    );
                },
                None => {},
            }
        },
        None => {},
    }
    assert(owner_used_errors(st, code, line) =~= Seq::<(nat, Seq<char>)>::empty());
    assert(st.errors + Seq::<(nat, Seq<char>)>::empty() =~= st.errors);
}

} // verus!
