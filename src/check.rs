//! Checking a requirement expression against the filesystem, and the
//! report of what made it fail.
use vstd::prelude::*;
use crate::requirement::{FileRequirement, leaves, leaves_list, rendered};
use crate::text::{chars_of, insert_sorted, join, join_strings, strictly_sorted};

verus! {

broadcast use {vstd::std_specs::vec::group_vec_axioms, vstd::seq::group_seq_axioms};

/// What probing one path found.
#[derive(Debug)]
pub enum ProbeOutcome {
    /// The path exists.
    Exists,
    /// The path does not exist.
    Missing,
    /// Whether the path exists could not be told; the cause as text.
    Failed(String),
}

/// What a failed evaluation found: the missing paths, the probe failures as
/// `path (cause)`, and the renderings of the unsatisfied `OR` groups.
pub struct Report {
    pub missing: Set<Seq<char>>,
    pub io: Set<Seq<char>>,
    pub disj: Set<Seq<char>>,
}

/// The report that names nothing.
pub open spec fn empty_report() -> Report {
    Report { missing: Set::empty(), io: Set::empty(), disj: Set::empty() }
}

/// Both reports together, list by list.
pub open spec fn union(a: Report, b: Report) -> Report {
    Report { missing: a.missing + b.missing, io: a.io + b.io, disj: a.disj + b.disj }
}

/// The entry of a probe failure: the path, then the cause in parentheses.
pub open spec fn probe_failure(path: Seq<char>, cause: Seq<char>) -> Seq<char> {
    path + " ("@ + cause + ")"@
}

/// A filesystem, as the outcome of probing each path.
pub type Filesystem = spec_fn(Seq<char>) -> ProbeOutcome;

/// Whether `r` is satisfied on `fs`, and what it reports: a file exists; an
/// `AND` group checks every child and reports all their failures; an `OR`
/// group tries its children in order, stops at the first satisfied one and
/// then reports nothing, else reports all its children's failures and its
/// own rendering.
pub open spec fn eval(r: FileRequirement, fs: Filesystem) -> (bool, Report)
    decreases r,
{
    match r {
        FileRequirement::File(p) => match fs(p@) {
            ProbeOutcome::Exists => (true, empty_report()),
            ProbeOutcome::Missing => (false, Report { missing: set![p@], ..empty_report() }),
            ProbeOutcome::Failed(c) => (
                false,
                Report { io: set![probe_failure(p@, c@)], ..empty_report() },
            ),
        },
        FileRequirement::All(cs) => eval_all(cs@, fs),
        FileRequirement::Any(cs) => {
            let (ok, rep) = eval_any(cs@, fs);
            if ok {
                (true, empty_report())
            } else {
                (false, Report { disj: rep.disj.insert(rendered(r)), ..rep })
            }
        },
    }
}

/// Every child of an `AND` group, left to right.
pub open spec fn eval_all(cs: Seq<FileRequirement>, fs: Filesystem) -> (bool, Report)
    decreases cs,
{
    if cs.len() == 0 {
        (true, empty_report())
    } else {
        let (a, ra) = eval_all(cs.drop_last(), fs);
        let (b, rb) = eval(cs.last(), fs);
        (a && b, union(ra, rb))
    }
}

/// The children of an `OR` group up to the first satisfied one.
pub open spec fn eval_any(cs: Seq<FileRequirement>, fs: Filesystem) -> (bool, Report)
    decreases cs,
{
    if cs.len() == 0 {
        (false, empty_report())
    } else {
        let (a, ra) = eval_any(cs.drop_last(), fs);
        if a {
            (true, empty_report())
        } else {
            let (b, rb) = eval(cs.last(), fs);
            if b {
                (true, empty_report())
            } else {
                (false, union(ra, rb))
            }
        }
    }
}

/// The outcome recorded for `p` in `t`: that of its first entry.
pub open spec fn lookup(t: Seq<(String, ProbeOutcome)>, p: Seq<char>) -> Option<ProbeOutcome>
    decreases t.len(),
{
    if t.len() == 0 {
        None
    } else if t[0].0@ == p {
        Some(t[0].1)
    } else {
        lookup(t.drop_first(), p)
    }
}

/// `fs` gives each path recorded in `t` its recorded outcome.
pub open spec fn agrees(fs: Filesystem, t: Seq<(String, ProbeOutcome)>) -> bool {
    forall|p: Seq<char>| #[trigger] lookup(t, p) matches Some(o) ==> fs(p) == o
}

/// `b` keeps every outcome recorded in `a`.
pub open spec fn extends(a: Seq<(String, ProbeOutcome)>, b: Seq<(String, ProbeOutcome)>) -> bool {
    forall|p: Seq<char>| #[trigger] lookup(a, p) is Some ==> lookup(b, p) == lookup(a, p)
}

/// The filesystem that `t` describes, where paths it does not record are
/// missing.
pub open spec fn table_fs(t: Seq<(String, ProbeOutcome)>) -> Filesystem {
    |p: Seq<char>|
        match lookup(t, p) {
            Some(o) => o,
            None => ProbeOutcome::Missing,
        }
}

proof fn lemma_lookup_push(t: Seq<(String, ProbeOutcome)>, e: (String, ProbeOutcome), p: Seq<char>)
    ensures
        lookup(t.push(e), p) == if lookup(t, p) is Some {
            lookup(t, p)
        } else if e.0@ == p {
            Some(e.1)
        } else {
            None
        },
    decreases t.len(),
{
    if t.len() > 0 {
        assert(t.push(e).drop_first() =~= t.drop_first().push(e));
        assert(t.push(e)[0] == t[0]);
        lemma_lookup_push(t.drop_first(), e, p);
    } else {
        assert(t.push(e).drop_first() =~= t);
        assert(t.push(e)[0] == e);
    }
}

/// The diagnostics gathered while evaluating, each list strictly sorted.
struct CheckContext {
    missing_files: Vec<String>,
    io_errors: Vec<String>,
    unsatisfied_disjunctions: Vec<String>,
}

impl CheckContext {
    spec fn view(&self) -> Report {
        Report {
            missing: chars_of(self.missing_files@).to_set(),
            io: chars_of(self.io_errors@).to_set(),
            disj: chars_of(self.unsatisfied_disjunctions@).to_set(),
        }
    }

    spec fn wf(&self) -> bool {
        &&& strictly_sorted(chars_of(self.missing_files@))
        &&& strictly_sorted(chars_of(self.io_errors@))
        &&& strictly_sorted(chars_of(self.unsatisfied_disjunctions@))
    }

    fn new() -> (c: CheckContext)
        ensures
            c.wf(),
            c.view() == empty_report(),
    {
        let c = CheckContext { missing_files: Vec::new(), io_errors: Vec::new(), unsatisfied_disjunctions: Vec::new() };
        proof {
            assert(chars_of(c.missing_files@).to_set() =~= Set::<Seq<char>>::empty());
        }
        c
    }

    fn merge(&mut self, other: CheckContext)
        requires
            old(self).wf(),
            other.wf(),
        ensures
            final(self).wf(),
            final(self).view() == union(old(self).view(), other.view()),
    {
        merge_into(&mut self.missing_files, &other.missing_files);
        merge_into(&mut self.io_errors, &other.io_errors);
        merge_into(&mut self.unsatisfied_disjunctions, &other.unsatisfied_disjunctions);
    }
}

fn merge_into(v: &mut Vec<String>, w: &Vec<String>)
    requires
        strictly_sorted(chars_of(old(v)@)),
    ensures
        strictly_sorted(chars_of(final(v)@)),
        chars_of(final(v)@).to_set() == chars_of(old(v)@).to_set() + chars_of(w@).to_set(),
{
    let mut i: usize = 0;
    while i < w.len()
        invariant
            i <= w.len(),
            strictly_sorted(chars_of(v@)),
            chars_of(v@).to_set() == chars_of(old(v)@).to_set() + chars_of(w@).take(i as int).to_set(),
        decreases w.len() - i,
    {
        proof {
            assert(chars_of(w@).take(i + 1) =~= chars_of(w@).take(i as int).push(w@[i as int]@));
            chars_of(w@).take(i as int).lemma_push_to_set_commute(w@[i as int]@);
        }
        insert_sorted(v, w[i].clone());
        i = i + 1;
        proof {
            assert(chars_of(v@).to_set() =~= chars_of(old(v)@).to_set() + chars_of(w@).take(i as int).to_set());
        }
    }
    proof {
        assert(chars_of(w@).take(i as int) =~= chars_of(w@));
    }
}

/// The paths whose outcome evaluating `r` on `fs` looks at: every file
/// term of an `AND` group, and of an `OR` group those of its children up to
/// the first satisfied one.
pub open spec fn reached(r: FileRequirement, fs: Filesystem) -> Set<Seq<char>>
    decreases r,
{
    match r {
        FileRequirement::File(p) => set![p@],
        FileRequirement::All(cs) => reached_all(cs@, fs),
        FileRequirement::Any(cs) => reached_any(cs@, fs),
    }
}

/// The paths reached by every one of `cs`.
pub open spec fn reached_all(cs: Seq<FileRequirement>, fs: Filesystem) -> Set<Seq<char>>
    decreases cs,
{
    if cs.len() == 0 {
        Set::empty()
    } else {
        reached_all(cs.drop_last(), fs) + reached(cs.last(), fs)
    }
}

/// The paths reached by `cs` up to the first satisfied one.
pub open spec fn reached_any(cs: Seq<FileRequirement>, fs: Filesystem) -> Set<Seq<char>>
    decreases cs,
{
    if cs.len() == 0 {
        Set::empty()
    } else if eval_any(cs.drop_last(), fs).0 {
        reached_any(cs.drop_last(), fs)
    } else {
        reached_any(cs.drop_last(), fs) + reached(cs.last(), fs)
    }
}

/// Each entry of `t` from index `from` on is for a path that no earlier
/// entry records.
pub open spec fn fresh_from(t: Seq<(String, ProbeOutcome)>, from: int) -> bool {
    forall|i: int| from <= i < t.len() ==> lookup(#[trigger] t.take(i), t[i].0@) is None
}

/// Each entry of `t` from index `from` on is for a path of `s`.
pub open spec fn paths_within(t: Seq<(String, ProbeOutcome)>, from: int, s: Set<Seq<char>>) -> bool {
    forall|i: int| from <= i < t.len() ==> s.contains(#[trigger] t[i].0@)
}

proof fn lemma_cache_step(
    t0: Seq<(String, ProbeOutcome)>,
    t1: Seq<(String, ProbeOutcome)>,
    t2: Seq<(String, ProbeOutcome)>,
    s1: Set<Seq<char>>,
    s2: Set<Seq<char>>,
)
    requires
        t0.len() <= t1.len() <= t2.len(),
        t1.subrange(0, t0.len() as int) == t0,
        t2.subrange(0, t1.len() as int) == t1,
        fresh_from(t1, t0.len() as int),
        fresh_from(t2, t1.len() as int),
    ensures
        t2.subrange(0, t0.len() as int) == t0,
        fresh_from(t2, t0.len() as int),
        paths_within(t1, t0.len() as int, s1) && paths_within(t2, t1.len() as int, s2)
            ==> paths_within(t2, t0.len() as int, s1 + s2),
{
    assert(t2.subrange(0, t0.len() as int) =~= t0) by {
        assert forall|i: int| 0 <= i < t0.len() implies t2[i] == t0[i] by {
            assert(t2[i] == t1[i]);
            assert(t1.subrange(0, t0.len() as int)[i] == t1[i]);
        }
    }
    assert forall|i: int| t0.len() <= i < t2.len() implies lookup(#[trigger] t2.take(i), t2[i].0@) is None by {
        if i < t1.len() {
            assert(t2.subrange(0, t1.len() as int)[i] == t2[i]);
            assert(t2.take(i) =~= t1.take(i));
        }
    }
    if paths_within(t1, t0.len() as int, s1) && paths_within(t2, t1.len() as int, s2) {
    assert forall|i: int| t0.len() <= i < t2.len() implies (s1 + s2).contains(#[trigger] t2[i].0@) by {
        if i < t1.len() {
            assert(t2.subrange(0, t1.len() as int)[i] == t2[i]);
            assert(s1.contains(t1[i].0@));
        } else {
            assert(s2.contains(t2[i].0@));
        }
    }
    }
}

/// Every path of a file term of `r` is recorded in `t`.
pub open spec fn covered(r: FileRequirement, t: Seq<(String, ProbeOutcome)>) -> bool {
    forall|p: Seq<char>| leaves(r).contains(p) ==> (#[trigger] lookup(t, p)) is Some
}

proof fn lemma_child_leaves(cs: Seq<FileRequirement>, k: int, p: Seq<char>)
    requires
        0 <= k < cs.len(),
        leaves(cs[k]).contains(p),
    ensures
        leaves_list(cs).contains(p),
    decreases cs.len(),
{
    let a = leaves_list(cs.drop_last());
    let b = leaves(cs.last());
    assert(leaves_list(cs) == a + b);
    if k == cs.len() - 1 {
        let j = choose|j: int| 0 <= j < b.len() && b[j] == p;
        assert((a + b)[a.len() + j] == p);
    } else {
        assert(cs.drop_last()[k] == cs[k]);
        lemma_child_leaves(cs.drop_last(), k, p);
        let j = choose|j: int| 0 <= j < a.len() && a[j] == p;
        assert((a + b)[j] == p);
    }
}

proof fn lemma_child_covered(r: FileRequirement, cs: Seq<FileRequirement>, k: int, t: Seq<(String, ProbeOutcome)>)
    requires
        r is All || r is Any,
        r is All ==> r->All_0@ == cs,
        r is Any ==> r->Any_0@ == cs,
        0 <= k < cs.len(),
        covered(r, t),
    ensures
        covered(cs[k], t),
{
    assert forall|p: Seq<char>| leaves(cs[k]).contains(p) implies (#[trigger] lookup(t, p)) is Some by {
        lemma_child_leaves(cs, k, p);
    }
}

proof fn lemma_union_assoc(a: Report, b: Report, c: Report)
    ensures
        union(union(a, b), c) == union(a, union(b, c)),
        union(a, empty_report()) == a,
        union(empty_report(), a) == a,
{
    assert(union(empty_report(), a).missing =~= a.missing);
    assert(union(empty_report(), a).io =~= a.io);
    assert(union(empty_report(), a).disj =~= a.disj);
    assert(union(union(a, b), c).missing =~= union(a, union(b, c)).missing);
    assert(union(union(a, b), c).io =~= union(a, union(b, c)).io);
    assert(union(union(a, b), c).disj =~= union(a, union(b, c)).disj);
    assert(union(a, empty_report()).missing =~= a.missing);
    assert(union(a, empty_report()).io =~= a.io);
    assert(union(a, empty_report()).disj =~= a.disj);
}

/// Relies on `std::path::Path::try_exists`: `Ok(true)` when the path
/// exists, `Ok(false)` when it does not, and an error when that cannot be
/// told. What it finds depends on the disk, so nothing is promised of it.
#[verifier::external_body]
fn probe_path(path: &str) -> (r: ProbeOutcome) {
    match std::path::Path::new(path).try_exists() {
        Ok(true) => ProbeOutcome::Exists,
        Ok(false) => ProbeOutcome::Missing,
        Err(e) => ProbeOutcome::Failed(e.to_string()),
    }
}

fn copy_outcome(o: &ProbeOutcome) -> (r: ProbeOutcome)
    ensures
        r == *o,
{
    match o {
        ProbeOutcome::Exists => ProbeOutcome::Exists,
        ProbeOutcome::Missing => ProbeOutcome::Missing,
        ProbeOutcome::Failed(c) => ProbeOutcome::Failed(c.clone()),
    }
}

fn find_probe(t: &Vec<(String, ProbeOutcome)>, p: &String) -> (r: Option<ProbeOutcome>)
    ensures
        r == lookup(t@, p@),
{
    let mut i: usize = 0;
    proof {
        assert(t@.skip(0) =~= t@);
    }
    while i < t.len()
        invariant
            i <= t.len(),
            lookup(t@, p@) == lookup(t@.skip(i as int), p@),
        decreases t.len() - i,
    {
        proof {
            assert(t@.skip(i as int).drop_first() =~= t@.skip(i + 1));
            assert(t@.skip(i as int)[0] == t@[i as int]);
        }
        if t[i].0 == *p {
            return Some(copy_outcome(&t[i].1));
        }
        i = i + 1;
    }
    None
}

impl FileRequirement {
    /// Evaluates this expression, adding its report to `ctx`. A path with
    /// an entry in `cache` is not probed; any other path is probed once and
    /// appended to `cache`, and only paths that the evaluation reaches are
    /// probed (an `OR` group stops at its first satisfied child).
    fn evaluate(&self, ctx: &mut CheckContext, cache: &mut Vec<(String, ProbeOutcome)>) -> (ok: bool)
        requires
            old(ctx).wf(),
        ensures
            final(ctx).wf(),
            extends(old(cache)@, final(cache)@),
            covered(*self, old(cache)@) ==> final(cache)@ == old(cache)@,
            forall|fs: Filesystem|
                agrees(fs, final(cache)@) ==> ok == (#[trigger] eval(*self, fs)).0
                    && final(ctx).view() == union(old(ctx).view(), eval(*self, fs).1),
            old(cache)@.len() <= final(cache)@.len(),
            final(cache)@.subrange(0, old(cache)@.len() as int) == old(cache)@,
            fresh_from(final(cache)@, old(cache)@.len() as int),
            forall|fs: Filesystem|
                agrees(fs, final(cache)@) ==> paths_within(
                    final(cache)@,
                    old(cache)@.len() as int,
                    #[trigger] reached(*self, fs),
                ),
        decreases self,
    {
        let ghost v0 = ctx.view();
        let ghost t0 = cache@;
        match self {
            FileRequirement::File(p) => {
                let outcome = match find_probe(cache, p) {
                    Some(o) => {
                        proof {
                            assert(cache@.subrange(0, t0.len() as int) =~= t0);
                        }
                        o
                    },
                    None => {
                        let o = probe_path(p.as_str());
                        let e = (p.clone(), copy_outcome(&o));
                        let ghost ge = e;
                        cache.push(e);
                        proof {
                            assert forall|q: Seq<char>| #[trigger] lookup(cache@, q) == if lookup(t0, q) is Some {
                                lookup(t0, q)
                            } else if p@ == q {
                                Some(o)
                            } else {
                                None
                            } by {
                                lemma_lookup_push(t0, ge, q);
                            }
                            assert(leaves(*self).contains(p@)) by {
                                assert(leaves(*self)[0] == p@);
                            }
                            assert(cache@.subrange(0, t0.len() as int) =~= t0);
                            assert(cache@.take(t0.len() as int) =~= t0);
                            assert(cache@[t0.len() as int].0@ == p@);
                        }
                        o
                    },
                };
                proof {
                    assert(lookup(cache@, p@) == Some(outcome));
                    assert forall|fs: Filesystem| agrees(fs, cache@) implies fs(p@) == outcome by {
                        assert(lookup(cache@, p@) == Some(outcome));
                    }
                }
                match outcome {
                    ProbeOutcome::Exists => {
                        proof {
                            lemma_union_assoc(v0, v0, v0);
                        }
                        true
                    },
                    ProbeOutcome::Missing => {
                        insert_sorted(&mut ctx.missing_files, p.clone());
                        proof {
                            assert(ctx.view().missing =~= v0.missing + set![p@]);
                            assert(ctx.view().io =~= v0.io + Set::empty());
                            assert(ctx.view().disj =~= v0.disj + Set::empty());
                        }
                        false
                    },
                    ProbeOutcome::Failed(cause) => {
                        let mut text = p.clone();
                        text.append(" (");
                        text.append(cause.as_str());
                        text.append(")");
                        let ghost tv = text@;
                        insert_sorted(&mut ctx.io_errors, text);
                        proof {
                            assert(tv =~= probe_failure(p@, cause@));
                            assert(ctx.view().missing =~= v0.missing + Set::empty());
                            assert(ctx.view().io =~= v0.io + set![tv]);
                            assert(ctx.view().disj =~= v0.disj + Set::empty());
                        }
                        false
                    },
                }
            },
            FileRequirement::All(cs) => {
                let mut all_ok = true;
                let mut i: usize = 0;
                proof {
                    assert(cs@.take(0) =~= Seq::<FileRequirement>::empty());
                    lemma_union_assoc(v0, v0, v0);
                    assert(cache@.subrange(0, t0.len() as int) =~= t0);
                }
                while i < cs.len()
                    invariant
                        *self == FileRequirement::All(*cs),
                        t0 == old(cache)@,
                        v0 == old(ctx).view(),
                        i <= cs.len(),
                        ctx.wf(),
                        extends(t0, cache@),
                        covered(*self, t0) ==> cache@ == t0,
                        forall|fs: Filesystem|
                            agrees(fs, cache@) ==> all_ok == (#[trigger] eval_all(cs@.take(i as int), fs)).0
                                && ctx.view() == union(v0, eval_all(cs@.take(i as int), fs).1),
                        t0.len() <= cache@.len(),
                        cache@.subrange(0, t0.len() as int) == t0,
                        fresh_from(cache@, t0.len() as int),
                        forall|fs: Filesystem|
                            agrees(fs, cache@) ==> paths_within(
                                cache@,
                                t0.len() as int,
                                #[trigger] reached_all(cs@.take(i as int), fs),
                            ),
                    decreases cs.len() - i,
                {
                    let ghost t1 = cache@;
                    let ghost v1 = ctx.view();
                    let ghost ok1 = all_ok;
                    proof {
                        if covered(*self, t0) {
                            lemma_child_covered(*self, cs@, i as int, t0);
                        }
                    }
                    let ok = cs[i].evaluate(ctx, cache);
                    if !ok {
                        all_ok = false;
                    }
                    proof {
                        let s = cs@.take(i + 1);
                        assert(s.drop_last() =~= cs@.take(i as int));
                        assert(s.last() == cs@[i as int]);
                        assert forall|fs: Filesystem| agrees(fs, cache@) implies all_ok == (#[trigger] eval_all(s, fs)).0
                            && ctx.view() == union(v0, eval_all(s, fs).1) by {
                            assert(agrees(fs, t1));
                            assert(eval(cs@[i as int], fs) == eval(s.last(), fs));
                            lemma_union_assoc(v0, eval_all(cs@.take(i as int), fs).1, eval(cs@[i as int], fs).1);
                        }
                        assert forall|fs: Filesystem| agrees(fs, cache@) implies paths_within(
                            cache@,
                            t0.len() as int,
                            #[trigger] reached_all(s, fs),
                        ) by {
                            assert(agrees(fs, t1));
                            assert(reached(cs@[i as int], fs) == reached(s.last(), fs));
                            lemma_cache_step(t0, t1, cache@, reached_all(cs@.take(i as int), fs), reached(cs@[i as int], fs));
                        }
                        lemma_cache_step(t0, t1, cache@, Set::empty(), Set::empty());
                    }
                    i = i + 1;
                }
                proof {
                    assert(cs@.take(i as int) =~= cs@);
                    assert forall|fs: Filesystem| agrees(fs, cache@) implies all_ok == (#[trigger] eval(*self, fs)).0
                        && ctx.view() == union(v0, eval(*self, fs).1) by {
                        assert(eval_all(cs@.take(i as int), fs) == eval_all(cs@, fs));
                    }
                    assert forall|fs: Filesystem| agrees(fs, cache@) implies paths_within(
                        cache@,
                        t0.len() as int,
                        #[trigger] reached(*self, fs),
                    ) by {
                        assert(reached_all(cs@.take(i as int), fs) == reached_all(cs@, fs));
                    }
                }
                all_ok
            },
            FileRequirement::Any(cs) => {
                let mut acc = CheckContext::new();
                let mut i: usize = 0;
                proof {
                    assert(cs@.take(0) =~= Seq::<FileRequirement>::empty());
                    assert(cache@.subrange(0, t0.len() as int) =~= t0);
                }
                while i < cs.len()
                    invariant
                        *self == FileRequirement::Any(*cs),
                        t0 == old(cache)@,
                        v0 == old(ctx).view(),
                        i <= cs.len(),
                        ctx.wf(),
                        acc.wf(),
                        ctx.view() == v0,
                        extends(t0, cache@),
                        covered(*self, t0) ==> cache@ == t0,
                        forall|fs: Filesystem|
                            agrees(fs, cache@) ==> !(#[trigger] eval_any(cs@.take(i as int), fs)).0
                                && acc.view() == eval_any(cs@.take(i as int), fs).1,
                        t0.len() <= cache@.len(),
                        cache@.subrange(0, t0.len() as int) == t0,
                        fresh_from(cache@, t0.len() as int),
                        forall|fs: Filesystem|
                            agrees(fs, cache@) ==> paths_within(
                                cache@,
                                t0.len() as int,
                                #[trigger] reached_any(cs@.take(i as int), fs),
                            ),
                    decreases cs.len() - i,
                {
                    let ghost t1 = cache@;
                    let ghost a1 = acc.view();
                    proof {
                        if covered(*self, t0) {
                            lemma_child_covered(*self, cs@, i as int, t0);
                        }
                    }
                    let mut branch = CheckContext::new();
                    let ok = cs[i].evaluate(&mut branch, cache);
                    let ghost b1 = branch.view();
                    let ghost s = cs@.take(i + 1);
                    proof {
                        assert(s.drop_last() =~= cs@.take(i as int));
                        assert(s.last() == cs@[i as int]);
                        lemma_cache_step(t0, t1, cache@, Set::empty(), Set::empty());
                        assert forall|fs: Filesystem| agrees(fs, cache@) implies paths_within(
                            cache@,
                            t0.len() as int,
                            #[trigger] reached_any(s, fs),
                        ) by {
                            assert(agrees(fs, t1));
                            assert(reached(cs@[i as int], fs) == reached(s.last(), fs));
                            assert(!eval_any(cs@.take(i as int), fs).0);
                            lemma_cache_step(t0, t1, cache@, reached_any(cs@.take(i as int), fs), reached(cs@[i as int], fs));
                        }
                    }
                    if ok {
                        proof {
                            assert forall|q: Seq<char>| #[trigger] lookup(t0, q) is Some implies lookup(cache@, q) == lookup(t0, q) by {
                                assert(lookup(t1, q) == lookup(t0, q));
                            }
                            assert forall|fs: Filesystem| agrees(fs, cache@) implies (#[trigger] eval(*self, fs)).0
                                && ctx.view() == union(v0, eval(*self, fs).1) by {
                                assert(agrees(fs, t1));
                                assert(eval(cs@[i as int], fs) == eval(s.last(), fs));
                                assert(eval_any(s, fs).0);
                                lemma_eval_any_keeps_success(cs@, i + 1, fs);
                                assert(eval_any(cs@.take(cs@.len() as int), fs) == (true, empty_report()));
                                assert(cs@.take(cs@.len() as int) =~= cs@);
                                assert(eval_any(cs@, fs).0);
                                lemma_union_assoc(v0, v0, v0);
                            }
                            assert forall|fs: Filesystem| agrees(fs, cache@) implies paths_within(
                                cache@,
                                t0.len() as int,
                                #[trigger] reached(*self, fs),
                            ) by {
                                assert(agrees(fs, t1));
                                assert(eval(cs@[i as int], fs) == eval(s.last(), fs));
                                assert(eval_any(s, fs).0);
                                lemma_eval_any_keeps_success(cs@, i + 1, fs);
                                assert(reached_any(cs@.take(cs@.len() as int), fs) == reached_any(s, fs));
                                assert(cs@.take(cs@.len() as int) =~= cs@);
                            }
                        }
                        return true;
                    }
                    acc.merge(branch);
                    proof {
                        assert forall|fs: Filesystem| agrees(fs, cache@) implies !(#[trigger] eval_any(s, fs)).0
                            && acc.view() == eval_any(s, fs).1 by {
                            assert(agrees(fs, t1));
                            assert(eval(cs@[i as int], fs) == eval(s.last(), fs));
                            assert(!eval_any(cs@.take(i as int), fs).0);
                            assert(a1 == eval_any(cs@.take(i as int), fs).1);
                            lemma_union_assoc(eval(cs@[i as int], fs).1, a1, b1);
                            assert(b1 == eval(cs@[i as int], fs).1);
                            assert(!eval(cs@[i as int], fs).0);
                            lemma_union_assoc(a1, a1, b1);
                        }
                    }
                    i = i + 1;
                }
                let ghost a2 = acc.view();
                ctx.merge(acc);
                let text = self.to_string();
                let ghost tv = text@;
                insert_sorted(&mut ctx.unsatisfied_disjunctions, text);
                proof {
                    assert(cs@.take(i as int) =~= cs@);
                    assert forall|fs: Filesystem| agrees(fs, cache@) implies !(#[trigger] eval(*self, fs)).0
                        && ctx.view() == union(v0, eval(*self, fs).1) by {
                        let rep = eval_any(cs@, fs).1;
                        assert(ctx.view().missing =~= union(v0, eval(*self, fs).1).missing);
                        assert(ctx.view().io =~= union(v0, eval(*self, fs).1).io);
                        assert(ctx.view().disj =~= union(v0, eval(*self, fs).1).disj);
                    }
                    assert forall|fs: Filesystem| agrees(fs, cache@) implies paths_within(
                        cache@,
                        t0.len() as int,
                        #[trigger] reached(*self, fs),
                    ) by {
                        assert(reached_any(cs@.take(i as int), fs) == reached_any(cs@, fs));
                    }
                }
                false
            },
        }
    }
}

/// Once a prefix of an `OR` group's children is satisfied, every longer
/// prefix is.
proof fn lemma_eval_any_keeps_success(cs: Seq<FileRequirement>, n: int, fs: Filesystem)
    requires
        0 <= n <= cs.len(),
        eval_any(cs.take(n), fs).0,
    ensures
        forall|m: int| n <= m <= cs.len() ==> (#[trigger] eval_any(cs.take(m), fs)) == (true, empty_report()),
        forall|m: int| n <= m <= cs.len() ==> (#[trigger] reached_any(cs.take(m), fs)) == reached_any(cs.take(n), fs),
    decreases cs.len() - n,
{
    assert forall|m: int| n <= m <= cs.len() implies (#[trigger] eval_any(cs.take(m), fs)) == (true, empty_report()) by {
        lemma_eval_any_prefix(cs, n, m, fs);
    }
    assert forall|m: int| n <= m <= cs.len() implies (#[trigger] reached_any(cs.take(m), fs)) == reached_any(cs.take(n), fs) by {
        lemma_eval_any_prefix(cs, n, m, fs);
    }
}

proof fn lemma_eval_any_prefix(cs: Seq<FileRequirement>, n: int, m: int, fs: Filesystem)
    requires
        0 <= n <= m <= cs.len(),
        eval_any(cs.take(n), fs).0,
    ensures
        eval_any(cs.take(m), fs) == (true, empty_report()),
        reached_any(cs.take(m), fs) == reached_any(cs.take(n), fs),
    decreases m - n,
{
    if m > n {
        lemma_eval_any_prefix(cs, n, m - 1, fs);
        assert(cs.take(m).drop_last() =~= cs.take(m - 1));
    } else {
        assert(n > 0);
        let s = cs.take(n);
        assert(eval_any(s, fs).0);
    }
}

/// The sections of a failure message: each non-empty list, comma-joined
/// after its heading.
pub open spec fn sections(missing: Seq<Seq<char>>, io: Seq<Seq<char>>, disj: Seq<Seq<char>>) -> Seq<Seq<char>> {
    (if missing.len() > 0 {
        seq!["missing files: "@ + join(missing, ", "@)]
    } else {
        seq![]
    }) + (if io.len() > 0 {
        seq!["path check errors: "@ + join(io, ", "@)]
    } else {
        seq![]
    }) + (if disj.len() > 0 {
        seq!["unsatisfied disjunction(s): "@ + join(disj, ", "@)]
    } else {
        seq![]
    })
}

/// The failure message: the sections joined by `; ` in one sentence.
pub open spec fn report_message(missing: Seq<Seq<char>>, io: Seq<Seq<char>>, disj: Seq<Seq<char>>) -> Seq<char> {
    "Required input files were missing or incomplete ("@ + join(sections(missing, io, disj), "; "@) + ")"@
}

/// Errors produced when checking a built requirement expression.
#[derive(Debug)]
pub struct FileRequirementCheckError {
    message: String,
    missing_files: Vec<String>,
    io_errors: Vec<String>,
    unsatisfied_disjunctions: Vec<String>,
}

impl FileRequirementCheckError {
    /// The missing paths, in order.
    pub closed spec fn missing(&self) -> Seq<Seq<char>> {
        chars_of(self.missing_files@)
    }

    /// The probe failures, in order.
    pub closed spec fn io(&self) -> Seq<Seq<char>> {
        chars_of(self.io_errors@)
    }

    /// The renderings of the unsatisfied `OR` groups, in order.
    pub closed spec fn disj(&self) -> Seq<Seq<char>> {
        chars_of(self.unsatisfied_disjunctions@)
    }

    /// The text of the error.
    pub closed spec fn text(&self) -> Seq<char> {
        self.message@
    }

    /// This error lists exactly what `rep` holds, each list sorted and
    /// free of duplicates, and its text is the message built from them.
    pub open spec fn describes(&self, rep: Report) -> bool {
        &&& strictly_sorted(self.missing()) && self.missing().to_set() == rep.missing
        &&& strictly_sorted(self.io()) && self.io().to_set() == rep.io
        &&& strictly_sorted(self.disj()) && self.disj().to_set() == rep.disj
        &&& self.text() == report_message(self.missing(), self.io(), self.disj())
    }

    /// The text of the error.
    pub fn message(&self) -> (r: &str)
        ensures
            r@ == self.text(),
    {
        self.message.as_str()
    }

    fn from_context(ctx: CheckContext) -> (e: FileRequirementCheckError)
        requires
            ctx.wf(),
        ensures
            e.describes(ctx.view()),
    {
        let mut parts: Vec<String> = Vec::new();
        if ctx.missing_files.len() > 0 {
            parts.push(section("missing files: ", &ctx.missing_files));
        }
        if ctx.io_errors.len() > 0 {
            parts.push(section("path check errors: ", &ctx.io_errors));
        }
        if ctx.unsatisfied_disjunctions.len() > 0 {
            parts.push(section("unsatisfied disjunction(s): ", &ctx.unsatisfied_disjunctions));
        }
        let mut message = String::from_str("Required input files were missing or incomplete (");
        let joined = join_strings(&parts, "; ");
        message.append(joined.as_str());
        message.append(")");
        proof {
            assert(chars_of(parts@) =~= sections(
                chars_of(ctx.missing_files@),
                chars_of(ctx.io_errors@),
                chars_of(ctx.unsatisfied_disjunctions@),
            ));
        }
        FileRequirementCheckError {
            message,
            missing_files: ctx.missing_files,
            io_errors: ctx.io_errors,
            unsatisfied_disjunctions: ctx.unsatisfied_disjunctions,
        }
    }
}

fn section(heading: &str, items: &Vec<String>) -> (r: String)
    ensures
        r@ == heading@ + join(chars_of(items@), ", "@),
{
    let mut r = String::from_str(heading);
    let joined = join_strings(items, ", ");
    r.append(joined.as_str());
    r
}

/// What `check` owes on `fs`: `Ok` exactly when `req` is satisfied there,
/// else an error that describes its report.
pub open spec fn check_outcome(req: FileRequirement, fs: Filesystem, r: Result<(), FileRequirementCheckError>) -> bool {
    match r {
        Ok(_) => eval(req, fs).0,
        Err(e) => !eval(req, fs).0 && e.describes(eval(req, fs).1),
    }
}

fn copy_table(t: &Vec<(String, ProbeOutcome)>) -> (r: Vec<(String, ProbeOutcome)>)
    ensures
        r@ == t@,
{
    let mut r: Vec<(String, ProbeOutcome)> = Vec::new();
    let mut i: usize = 0;
    while i < t.len()
        invariant
            i <= t.len(),
            r@ == t@.take(i as int),
        decreases t.len() - i,
    {
        r.push((t[i].0.clone(), copy_outcome(&t[i].1)));
        proof {
            assert(r@ =~= t@.take(i + 1));
        }
        i = i + 1;
    }
    proof {
        assert(t@.take(i as int) =~= t@);
    }
    r
}

impl FileRequirement {
    /// Validate this expression where the outcomes of some probes are
    /// known: a path with an entry in `known` takes the outcome of its first
    /// entry, and any other path that the evaluation reaches is probed on
    /// disk, once. The result is what `check_outcome` owes on a filesystem
    /// that agrees with `known`; when `known` covers every path of the
    /// expression, on every such filesystem.
    pub fn check_with(&self, known: &Vec<(String, ProbeOutcome)>) -> (r: Result<(), FileRequirementCheckError>)
        ensures
            exists|fs: Filesystem| agrees(fs, known@) && check_outcome(*self, fs, r),
            covered(*self, known@) ==> forall|fs: Filesystem|
                agrees(fs, known@) ==> check_outcome(*self, fs, r),
    {
        let mut cache = copy_table(known);
        let mut ctx = CheckContext::new();
        let ok = self.evaluate(&mut ctx, &mut cache);
        let r = if ok {
            Ok(())
        } else {
            Err(FileRequirementCheckError::from_context(ctx))
        };
        proof {
            let fs = table_fs(cache@);
            assert(agrees(fs, cache@));
            assert(agrees(fs, known@)) by {
                assert forall|p: Seq<char>| #[trigger] lookup(known@, p) is Some implies fs(p) == lookup(known@, p)->Some_0 by {
                    assert(lookup(cache@, p) == lookup(known@, p));
                }
            }
            assert forall|g: Filesystem| agrees(g, cache@) implies check_outcome(*self, g, r) by {
                lemma_union_assoc(eval(*self, g).1, eval(*self, g).1, eval(*self, g).1);
            }
            assert(check_outcome(*self, fs, r));
        }
        r
    }

    /// Validate this requirement expression against the local filesystem.
    /// The result is what `check_outcome` owes on the filesystem that the
    /// probes found.
    pub fn check(&self) -> (r: Result<(), FileRequirementCheckError>)
        ensures
            exists|fs: Filesystem| check_outcome(*self, fs, r),
    {
        let known: Vec<(String, ProbeOutcome)> = Vec::new();
        self.check_with(&known)
    }
}

} // verus!
