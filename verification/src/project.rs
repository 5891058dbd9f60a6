//! The walk over a crate's modules. From the entry file on, every file that
//! a `mod name;` declaration leads to is checked once, and so is every
//! module defined inline (`mod name { .. }`). Reading a file and finding
//! which candidate file of a module exists are the caller's part: it asks
//! the walk for the next path, reads it, and hands the text back.
use vstd::prelude::*;
use crate::text::{chars_to_string, push_str};
use crate::analyzer::{check_source, scannable, spec_check_source, spec_scannable, strings_view};
use crate::cli::{
    find_inline_modules, lemma_inline_body_len, module_pairs_view, spec_find_inline_modules,
    str_views,
};

verus! {

broadcast use vstd::string::group_string_axioms;

/// The walk as values: the paths still to visit (the last is next), every
/// path and inline module visited so far, and the violations found, each
/// with the file it is reported for.
#[verifier::ext_equal]
pub struct WalkV {
    pub stack: Seq<Seq<char>>,
    pub seen: Seq<Seq<char>>,
    pub found: Seq<(Seq<char>, nat, Seq<char>)>,
}

pub struct ProjectWalk {
    stack: Vec<String>,
    seen: Vec<String>,
    found: Vec<(String, usize, String)>,
}

pub open spec fn located_view(v: Seq<(String, usize, String)>) -> Seq<(Seq<char>, nat, Seq<char>)> {
    v.map_values(|e: (String, usize, String)| (e.0@, e.1 as nat, e.2@))
}

impl View for ProjectWalk {
    type V = WalkV;

    closed spec fn view(&self) -> WalkV {
        WalkV {
            stack: str_views(self.stack@),
            seen: str_views(self.seen@),
            found: located_view(self.found@),
        }
    }
}

/// The walk from a given point on: skip the paths already seen; the next
/// path is the last one on the stack that was not.
pub open spec fn next_from(stack: Seq<Seq<char>>, seen: Seq<Seq<char>>) -> (
    Seq<Seq<char>>,
    Option<Seq<char>>,
)
    decreases stack.len(),
{
    if stack.len() == 0 {
        (stack, None)
    } else if seen.contains(stack.last()) {
        next_from(stack.drop_last(), seen)
    } else {
        (stack.drop_last(), Some(stack.last()))
    }
}

/// One step of the walk: the state after it, and the path to visit, which
/// is now seen; `None` when nothing is left.
pub open spec fn spec_next(w: WalkV) -> (WalkV, Option<Seq<char>>) {
    let (stack, p) = next_from(w.stack, w.seen);
    (
        WalkV {
            stack,
            seen: match p {
                Some(q) => w.seen.push(q),
                None => w.seen,
            },
            found: w.found,
        },
        p,
    )
}

/// How an inline module is remembered as seen.
pub open spec fn inline_label(path: Seq<char>, name: Seq<char>) -> Seq<char> {
    path + " (inline mod "@ + name + seq![')']
}

/// The file an inline module's violations are reported for.
pub open spec fn inline_file(path: Seq<char>, name: Seq<char>) -> Seq<char> {
    path + seq![':'] + name
}

pub open spec fn located(file: Seq<char>, errs: Seq<(nat, Seq<char>)>) -> Seq<
    (Seq<char>, nat, Seq<char>),
> {
    errs.map_values(|e: (nat, Seq<char>)| (file, e.0, e.1))
}

/// The inline modules of file `path`, in order: each one not seen yet is
/// marked seen and its body checked. `None` where a body cannot be taken
/// apart into lines.
pub open spec fn visit_inline(w: WalkV, path: Seq<char>, mods: Seq<(Seq<char>, Seq<char>)>) -> Option<
    WalkV,
>
    decreases mods.len(),
{
    if mods.len() == 0 {
        Some(w)
    } else {
        match visit_inline(w, path, mods.drop_last()) {
            None => None,
            Some(v) => {
                let name = mods.last().0;
                let body = mods.last().1;
                if v.seen.contains(inline_label(path, name)) {
                    Some(v)
                } else if !spec_scannable(body) {
                    None
                } else {
                    Some(
                        WalkV {
                            stack: v.stack,
                            seen: v.seen.push(inline_label(path, name)),
                            found: v.found + located(inline_file(path, name), spec_check_source(body)),
                        },
                    )
                }
            },
        }
    }
}

/// Visiting file `path` (reported as `rel`) with text `src`, whose declared
/// modules were found at `module_files`: those files are put on the stack,
/// the inline modules are checked, then the file itself. `None` where a
/// text cannot be taken apart into lines.
pub open spec fn spec_visit(
    w: WalkV,
    path: Seq<char>,
    rel: Seq<char>,
    src: Seq<char>,
    module_files: Seq<Seq<char>>,
) -> Option<WalkV> {
    let pushed = WalkV { stack: w.stack + module_files, seen: w.seen, found: w.found };
    match visit_inline(pushed, path, spec_find_inline_modules(src)) {
        None => None,
        Some(v) => if spec_scannable(src) {
            Some(
                WalkV {
                    stack: v.stack,
                    seen: v.seen,
                    found: v.found + located(rel, spec_check_source(src)),
                },
            )
        } else {
            None
        },
    }
}

proof fn lemma_next_from(stack: Seq<Seq<char>>, seen: Seq<Seq<char>>)
    ensures
        next_from(stack, seen).1 matches Some(p) ==> !seen.contains(p),
    decreases stack.len(),
{
    if stack.len() > 0 && seen.contains(stack.last()) {
        lemma_next_from(stack.drop_last(), seen);
    }
}

proof fn lemma_visit_inline_none(w: WalkV, path: Seq<char>, mods: Seq<(Seq<char>, Seq<char>)>, j: int)
    requires
        0 <= j <= mods.len(),
        visit_inline(w, path, mods.take(j)) is None,
    ensures
        visit_inline(w, path, mods) is None,
    decreases mods.len() - j,
{
    if j < mods.len() {
        assert(mods.take(j + 1).drop_last() =~= mods.take(j));
        lemma_visit_inline_none(w, path, mods, j + 1);
    } else {
        assert(mods.take(j) =~= mods);
    }
}

proof fn lemma_visit_inline_grows(w: WalkV, path: Seq<char>, mods: Seq<(Seq<char>, Seq<char>)>)
    ensures
        visit_inline(w, path, mods) matches Some(v) ==> {
            &&& v.stack == w.stack
            &&& v.seen.len() >= w.seen.len()
            &&& v.seen.take(w.seen.len() as int) == w.seen
            &&& v.found.len() >= w.found.len()
            &&& v.found.take(w.found.len() as int) == w.found
        },
    decreases mods.len(),
{
    if mods.len() > 0 {
        lemma_visit_inline_grows(w, path, mods.drop_last());
        match visit_inline(w, path, mods.drop_last()) {
            Some(v) => {
                let label = inline_label(path, mods.last().0);
                let body = mods.last().1;
                assert(v.seen.push(label).take(w.seen.len() as int) =~= v.seen.take(
                    w.seen.len() as int,
                ));
                let f = v.found + located(inline_file(path, mods.last().0), spec_check_source(body));
                assert(f.take(w.found.len() as int) =~= v.found.take(w.found.len() as int));
            },
            None => {},
        }
    }
}

/// The walk never hands out a path it has seen, and the path it hands out
/// is seen from then on.
pub proof fn law_next_is_unseen(w: WalkV)
    ensures
        spec_next(w).1 matches Some(p) ==> {
            &&& !w.seen.contains(p)
            &&& spec_next(w).0.seen == w.seen.push(p)
        },
        spec_next(w).1 is None ==> spec_next(w).0.seen == w.seen,
        spec_next(w).0.found == w.found,
{
    lemma_next_from(w.stack, w.seen);
}

/// Visiting a file forgets nothing: whatever was seen stays seen, and the
/// violations found before stay first.
pub proof fn law_visit_keeps_history(
    w: WalkV,
    path: Seq<char>,
    rel: Seq<char>,
    src: Seq<char>,
    module_files: Seq<Seq<char>>,
)
    ensures
        spec_visit(w, path, rel, src, module_files) matches Some(v) ==> {
            &&& v.seen.len() >= w.seen.len()
            &&& v.seen.take(w.seen.len() as int) == w.seen
            &&& v.found.len() >= w.found.len()
            &&& v.found.take(w.found.len() as int) == w.found
            &&& v.stack.take(w.stack.len() as int) == w.stack
        },
{
    let pushed = WalkV { stack: w.stack + module_files, seen: w.seen, found: w.found };
    lemma_visit_inline_grows(pushed, path, spec_find_inline_modules(src));
    match visit_inline(pushed, path, spec_find_inline_modules(src)) {
        Some(v) => {
            assert(pushed.stack.take(w.stack.len() as int) =~= w.stack);
            if spec_scannable(src) {
                let f = v.found + located(rel, spec_check_source(src));
                assert(f.take(w.found.len() as int) =~= v.found.take(w.found.len() as int));
            }
        },
        None => {},
    }
}

fn contains_string(v: &Vec<String>, s: &String) -> (b: bool)
    ensures
        b == str_views(v@).contains(s@),
{
    let mut i: usize = 0;
    while i < v.len()
        invariant
            i <= v@.len(),
            forall|k: int| 0 <= k < i ==> v@[k]@ != s@,
        decreases v@.len() - i,
    {
        if v[i] == *s {
            assert(str_views(v@)[i as int] == s@);
            return true;
        }
        i += 1;
    }
    assert forall|k: int| 0 <= k < str_views(v@).len() implies str_views(v@)[k] != s@ by {
        assert(str_views(v@)[k] == v@[k]@);
    }
    false
}

fn push_located(found: &mut Vec<(String, usize, String)>, file: &String, errs: &Vec<(usize, String)>)
    ensures
        located_view(final(found)@) == located_view(old(found)@) + located(
            file@,
            strings_view(errs@),
        ),
{
    let ghost start = located_view(found@);
    let ghost all = located(file@, strings_view(errs@));
    let mut k: usize = 0;
    assert(located_view(found@) =~= start + all.take(0));
    while k < errs.len()
        invariant
            k <= errs@.len(),
            all == located(file@, strings_view(errs@)),
            located_view(found@) == start + all.take(k as int),
        decreases errs@.len() - k,
    {
        let ghost before = located_view(found@);
        found.push((file.clone(), errs[k].0, errs[k].1.clone()));
        assert(located_view(found@) =~= before.push(all[k as int]));
        assert(all.take(k + 1) =~= all.take(k as int).push(all[k as int]));
        k += 1;
    }
    assert(all.take(k as int) =~= all);
}

fn inline_label_exec(path: &str, name: &str) -> (r: String)
    ensures
        r@ == inline_label(path@, name@),
{
    let mut v: Vec<char> = Vec::new();
    push_str(&mut v, path);
    push_str(&mut v, " (inline mod ");
    push_str(&mut v, name);
    v.push(')');
    chars_to_string(&v)
}

fn inline_file_exec(path: &str, name: &str) -> (r: String)
    ensures
        r@ == inline_file(path@, name@),
{
    let mut v: Vec<char> = Vec::new();
    push_str(&mut v, path);
    v.push(':');
    push_str(&mut v, name);
    chars_to_string(&v)
}

impl ProjectWalk {
    /// No path seen twice.
    pub closed spec fn wf(&self) -> bool {
        str_views(self.seen@).no_duplicates()
    }

    /// A walk that starts at the entry file.
    pub fn new(entry: String) -> (w: Self)
        ensures
            w.wf(),
            w@ == (WalkV { stack: seq![entry@], seen: seq![], found: seq![] }),
    {
        let w = ProjectWalk { stack: vec![entry], seen: Vec::new(), found: Vec::new() };
        assert(w@.stack =~= seq![entry@]);
        assert(w@.seen =~= Seq::<Seq<char>>::empty());
        assert(w@.found =~= Seq::<(Seq<char>, nat, Seq<char>)>::empty());
        w
    }

    /// The next path to visit, now marked seen; `None` when the walk is
    /// over.
    pub fn next_path(&mut self) -> (r: Option<String>)
        requires
            old(self).wf(),
        ensures
            final(self).wf(),
            final(self)@ == spec_next(old(self)@).0,
            r is None ==> spec_next(old(self)@).1 is None,
            r matches Some(p) ==> spec_next(old(self)@).1 == Some(p@),
    {
        let ghost start = self@;
        loop
            invariant
                start == old(self)@,
                self.wf(),
                self@.seen == start.seen,
                self@.found == start.found,
                next_from(self@.stack, self@.seen) == next_from(start.stack, start.seen),
            decreases self.stack@.len(),
        {
            let ghost st = self@.stack;
            match self.stack.pop() {
                None => {
                    assert(st.len() == 0);
                    assert(self@ =~= spec_next(start).0);
                    return None;
                },
                Some(p) => {
                    assert(st.last() == p@);
                    assert(self@.stack =~= st.drop_last());
                    if !contains_string(&self.seen, &p) {
                        let ghost seen0 = self@.seen;
                        self.seen.push(p.clone());
                        assert(self@.seen =~= seen0.push(p@));
                        assert(next_from(st, seen0) == (st.drop_last(), Some(p@)));
                        assert(self@ =~= spec_next(start).0);
                        return Some(p);
                    }
                },
            }
        }
    }

    /// Visits file `path`, reported as `rel`, with text `src`; its declared
    /// modules were found at `module_files`. `None` where a text cannot be
    /// taken apart into lines.
    pub fn visit(self, path: &str, rel: &str, src: &str, module_files: Vec<String>) -> (r: Option<
        ProjectWalk,
    >)
        requires
            self.wf(),
            src@.len() + 1 < usize::MAX,
        ensures
            r is None <==> spec_visit(self@, path@, rel@, src@, str_views(module_files@)) is None,
            r matches Some(w) ==> w.wf() && w@ == spec_visit(
                self@,
                path@,
                rel@,
                src@,
                str_views(module_files@),
            )->0,
    {
        let ghost w0 = self@;
        let mut w = self;
        let mut i: usize = 0;
        while i < module_files.len()
            invariant
                i <= module_files@.len(),
                w0 == self@,
                w.wf(),
                w@ == (WalkV {
                    stack: w0.stack + str_views(module_files@).take(i as int),
                    seen: w0.seen,
                    found: w0.found,
                }),
            decreases module_files@.len() - i,
        {
            let ghost before = w@.stack;
            w.stack.push(module_files[i].clone());
            assert(w@.stack =~= before.push(module_files@[i as int]@));
            assert(str_views(module_files@).take(i + 1) =~= str_views(module_files@).take(
                i as int,
            ).push(module_files@[i as int]@));
            i += 1;
        }
        let ghost pushed = WalkV {
            stack: w0.stack + str_views(module_files@),
            seen: w0.seen,
            found: w0.found,
        };
        assert(str_views(module_files@).take(i as int) =~= str_views(module_files@));
        let mods = find_inline_modules(src);
        let ghost mv = module_pairs_view(mods@);
        proof {
            lemma_inline_body_len(src@);
        }
        let mut j: usize = 0;
        assert(mv.take(0) =~= Seq::<(Seq<char>, Seq<char>)>::empty());
        while j < mods.len()
            invariant
                j <= mods@.len(),
                mv == module_pairs_view(mods@),
                mv == spec_find_inline_modules(src@),
                forall|k: int| 0 <= k < mv.len() ==> (#[trigger] mv[k]).1.len() <= src@.len() + 1,
                src@.len() + 1 < usize::MAX,
                w0 == self@,
                pushed == (WalkV { stack: w0.stack + str_views(module_files@), seen: w0.seen, found: w0.found }),
                w.wf(),
                visit_inline(pushed, path@, mv.take(j as int)) == Some(w@),
            decreases mods@.len() - j,
        {
            assert(mv.take(j + 1).drop_last() =~= mv.take(j as int));
            assert(mv.take(j + 1).last() == mv[j as int]);
            assert(mv[j as int] == (mods@[j as int].0@, mods@[j as int].1@));
            let label = inline_label_exec(path, mods[j].0.as_str());
            if !contains_string(&w.seen, &label) {
                if !scannable(mods[j].1.as_str()) {
                    assert(!w@.seen.contains(inline_label(path@, mv[j as int].0)));
                    assert(!spec_scannable(mv[j as int].1));
                    assert(visit_inline(pushed, path@, mv.take(j + 1)) is None);
                    proof {
                        lemma_visit_inline_none(pushed, path@, mv, j + 1);
                    }
                    return None;
                }
                let errs = check_source(mods[j].1.as_str());
                let file = inline_file_exec(path, mods[j].0.as_str());
                let ghost seen0 = w@.seen;
                w.seen.push(label);
                assert(w@.seen =~= seen0.push(inline_label(path@, mv[j as int].0)));
                push_located(&mut w.found, &file, &errs);
            }
            j += 1;
        }
        assert(mv.take(j as int) =~= mv);
        if !scannable(src) {
            return None;
        }
        let errs = check_source(src);
        let file = rel.to_string();
        push_located(&mut w.found, &file, &errs);
        Some(w)
    }

    /// The violations found, each with the file it is reported for.
    pub fn into_found(self) -> (r: Vec<(String, usize, String)>)
        ensures
            located_view(r@) == self@.found,
    {
        self.found
    }
}

} // verus!
