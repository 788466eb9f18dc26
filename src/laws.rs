//! What holds of every requirement expression and every filesystem.
use vstd::prelude::*;
use crate::check::{
    FileRequirementCheckError, Filesystem, Report, check_outcome, empty_report, eval, eval_all,
    eval_any, union,
};
use crate::builder::{FileRequirementBuilder, GroupBuilder};
use crate::check::{reached, reached_all, reached_any};
use crate::requirement::{FileRequirement, leaves, leaves_list, rendered, rendered_list};
use crate::text::{join, lemma_str_lt_irreflexive, lemma_str_lt_total, str_lt, strictly_sorted};

verus! {

broadcast use {vstd::std_specs::vec::group_vec_axioms, vstd::seq::group_seq_axioms};

/// The reports of all of `cs` on `fs`, put together.
pub open spec fn union_all(cs: Seq<FileRequirement>, fs: Filesystem) -> Report
    decreases cs.len(),
{
    if cs.len() == 0 {
        empty_report()
    } else {
        union(union_all(cs.drop_last(), fs), eval(cs.last(), fs).1)
    }
}

proof fn lemma_union_all_members(cs: Seq<FileRequirement>, fs: Filesystem)
    ensures
        forall|x: Seq<char>| #[trigger] union_all(cs, fs).missing.contains(x) <==>
            exists|k: int| 0 <= k < cs.len() && eval(cs[k], fs).1.missing.contains(x),
        forall|x: Seq<char>| #[trigger] union_all(cs, fs).io.contains(x) <==>
            exists|k: int| 0 <= k < cs.len() && eval(cs[k], fs).1.io.contains(x),
        forall|x: Seq<char>| #[trigger] union_all(cs, fs).disj.contains(x) <==>
            exists|k: int| 0 <= k < cs.len() && eval(cs[k], fs).1.disj.contains(x),
    decreases cs.len(),
{
    if cs.len() > 0 {
        let d = cs.drop_last();
        lemma_union_all_members(d, fs);
        assert forall|k: int| 0 <= k < d.len() implies d[k] == cs[k] by {}
        assert(cs.last() == cs[cs.len() - 1]);
        assert forall|x: Seq<char>| #[trigger] union_all(cs, fs).missing.contains(x) implies
            exists|k: int| 0 <= k < cs.len() && eval(cs[k], fs).1.missing.contains(x) by {
            if union_all(d, fs).missing.contains(x) {
                let k = choose|k: int| 0 <= k < d.len() && eval(d[k], fs).1.missing.contains(x);
                assert(d[k] == cs[k]);
            }
        }
        assert forall|x: Seq<char>| #[trigger] union_all(cs, fs).io.contains(x) implies
            exists|k: int| 0 <= k < cs.len() && eval(cs[k], fs).1.io.contains(x) by {
            if union_all(d, fs).io.contains(x) {
                let k = choose|k: int| 0 <= k < d.len() && eval(d[k], fs).1.io.contains(x);
                assert(d[k] == cs[k]);
            }
        }
        assert forall|x: Seq<char>| #[trigger] union_all(cs, fs).disj.contains(x) implies
            exists|k: int| 0 <= k < cs.len() && eval(cs[k], fs).1.disj.contains(x) by {
            if union_all(d, fs).disj.contains(x) {
                let k = choose|k: int| 0 <= k < d.len() && eval(d[k], fs).1.disj.contains(x);
                assert(d[k] == cs[k]);
            }
        }
        assert forall|x: Seq<char>, k: int| 0 <= k < cs.len() && #[trigger] eval(cs[k], fs).1.missing.contains(x)
            implies union_all(cs, fs).missing.contains(x) by {
            if k < d.len() {
                assert(d[k] == cs[k]);
                assert(eval(d[k], fs).1.missing.contains(x));
                assert(union_all(d, fs).missing.contains(x));
            } else {
                assert(cs.last() == cs[k]);
            }
        }
        assert forall|x: Seq<char>, k: int| 0 <= k < cs.len() && #[trigger] eval(cs[k], fs).1.io.contains(x)
            implies union_all(cs, fs).io.contains(x) by {
            if k < d.len() {
                assert(d[k] == cs[k]);
                assert(eval(d[k], fs).1.io.contains(x));
                assert(union_all(d, fs).io.contains(x));
            } else {
                assert(cs.last() == cs[k]);
            }
        }
        assert forall|x: Seq<char>, k: int| 0 <= k < cs.len() && #[trigger] eval(cs[k], fs).1.disj.contains(x)
            implies union_all(cs, fs).disj.contains(x) by {
            if k < d.len() {
                assert(d[k] == cs[k]);
                assert(eval(d[k], fs).1.disj.contains(x));
                assert(union_all(d, fs).disj.contains(x));
            } else {
                assert(cs.last() == cs[k]);
            }
        }
    }
}

proof fn lemma_eval_all_is_union(cs: Seq<FileRequirement>, fs: Filesystem)
    ensures
        eval_all(cs, fs).1 == union_all(cs, fs),
        eval_all(cs, fs).0 <==> forall|k: int| 0 <= k < cs.len() ==> (#[trigger] eval(cs[k], fs)).0,
    decreases cs.len(),
{
    if cs.len() > 0 {
        let d = cs.drop_last();
        lemma_eval_all_is_union(d, fs);
        assert forall|k: int| 0 <= k < d.len() implies d[k] == cs[k] by {}
        assert(cs.last() == cs[cs.len() - 1]);
        if eval_all(cs, fs).0 {
            assert forall|k: int| 0 <= k < cs.len() implies (#[trigger] eval(cs[k], fs)).0 by {
                if k < d.len() {
                    assert(eval(d[k], fs).0);
                }
            }
        } else if eval_all(d, fs).0 {
            assert(!eval(cs[cs.len() - 1], fs).0);
        } else {
            let k = choose|k: int| 0 <= k < d.len() && !(#[trigger] eval(d[k], fs)).0;
            assert(!eval(cs[k], fs).0);
        }
    }
}

proof fn lemma_eval_any_failing(cs: Seq<FileRequirement>, fs: Filesystem)
    requires
        forall|k: int| 0 <= k < cs.len() ==> !(#[trigger] eval(cs[k], fs)).0,
    ensures
        eval_any(cs, fs) == (false, union_all(cs, fs)),
    decreases cs.len(),
{
    if cs.len() > 0 {
        let d = cs.drop_last();
        assert forall|k: int| 0 <= k < d.len() implies !(#[trigger] eval(d[k], fs)).0 by {
            assert(d[k] == cs[k]);
        }
        lemma_eval_any_failing(d, fs);
        assert(cs.last() == cs[cs.len() - 1]);
    }
}

proof fn lemma_eval_any_satisfied(cs: Seq<FileRequirement>, fs: Filesystem, k: int)
    requires
        0 <= k < cs.len(),
        eval(cs[k], fs).0,
    ensures
        eval_any(cs, fs) == (true, empty_report()),
    decreases cs.len(),
{
    let d = cs.drop_last();
    if k == cs.len() - 1 {
        assert(cs.last() == cs[k]);
    } else {
        assert(d[k] == cs[k]);
        lemma_eval_any_satisfied(d, fs, k);
    }
}

/// An `AND` group is satisfied exactly when every child is, and its report
/// gathers the missing paths, probe failures and unsatisfied `OR` groups of
/// every child, not only of the first that fails.
pub proof fn lemma_all_reports_every_child(r: FileRequirement, fs: Filesystem)
    requires
        r is All,
    ensures
        eval(r, fs).0 <==> forall|k: int| 0 <= k < r->All_0@.len() ==> (#[trigger] eval(r->All_0@[k], fs)).0,
        forall|x: Seq<char>| #[trigger] eval(r, fs).1.missing.contains(x) <==>
            exists|k: int| 0 <= k < r->All_0@.len() && eval(r->All_0@[k], fs).1.missing.contains(x),
        forall|x: Seq<char>| #[trigger] eval(r, fs).1.io.contains(x) <==>
            exists|k: int| 0 <= k < r->All_0@.len() && eval(r->All_0@[k], fs).1.io.contains(x),
        forall|x: Seq<char>| #[trigger] eval(r, fs).1.disj.contains(x) <==>
            exists|k: int| 0 <= k < r->All_0@.len() && eval(r->All_0@[k], fs).1.disj.contains(x),
{
    let cs = r->All_0@;
    lemma_eval_all_is_union(cs, fs);
    lemma_union_all_members(cs, fs);
}

/// An `OR` group with a satisfied child is satisfied and reports nothing:
/// no diagnostics of its other children surface.
pub proof fn lemma_any_satisfied_reports_nothing(r: FileRequirement, fs: Filesystem, k: int)
    requires
        r is Any,
        0 <= k < r->Any_0@.len(),
        eval(r->Any_0@[k], fs).0,
    ensures
        eval(r, fs) == (true, empty_report()),
{
    lemma_eval_any_satisfied(r->Any_0@, fs, k);
}

/// An `OR` group none of whose children is satisfied fails; its report
/// names the group's own rendering among the unsatisfied groups, and its
/// missing paths and probe failures are those of all its children together.
pub proof fn lemma_any_failing_reports_all_branches(r: FileRequirement, fs: Filesystem)
    requires
        r is Any,
        forall|k: int| 0 <= k < r->Any_0@.len() ==> !(#[trigger] eval(r->Any_0@[k], fs)).0,
    ensures
        !eval(r, fs).0,
        eval(r, fs).1.disj.contains(rendered(r)),
        forall|x: Seq<char>| #[trigger] eval(r, fs).1.missing.contains(x) <==>
            exists|k: int| 0 <= k < r->Any_0@.len() && eval(r->Any_0@[k], fs).1.missing.contains(x),
        forall|x: Seq<char>| #[trigger] eval(r, fs).1.io.contains(x) <==>
            exists|k: int| 0 <= k < r->Any_0@.len() && eval(r->Any_0@[k], fs).1.io.contains(x),
{
    let cs = r->Any_0@;
    lemma_eval_any_failing(cs, fs);
    lemma_union_all_members(cs, fs);
}

/// Two strictly sorted lists of the same strings are the same list.
pub proof fn lemma_sorted_lists_unique(a: Seq<Seq<char>>, b: Seq<Seq<char>>)
    requires
        strictly_sorted(a),
        strictly_sorted(b),
        a.to_set() == b.to_set(),
    ensures
        a == b,
    decreases a.len(),
{
    if a.len() == 0 {
        if b.len() > 0 {
            assert(b.to_set().contains(b[0]));
        }
        assert(a =~= b);
    } else {
        assert(a.to_set().contains(a[0]));
        assert(b.len() > 0);
        assert(b.to_set().contains(b[0]));
        let i = choose|i: int| 0 <= i < a.len() && a[i] == b[0];
        let j = choose|j: int| 0 <= j < b.len() && b[j] == a[0];
        if a[0] != b[0] {
            assert(i > 0 && j > 0);
            assert(str_lt(a[0], a[i]));
            assert(str_lt(b[0], b[j]));
            lemma_str_lt_total(a[0], b[0]);
        }
        let a1 = a.drop_first();
        let b1 = b.drop_first();
        assert forall|x: Seq<char>| a1.to_set().contains(x) implies b1.to_set().contains(x) by {
            let k = choose|k: int| 0 <= k < a1.len() && a1[k] == x;
            assert(a[k + 1] == x);
            assert(str_lt(a[0], x));
            lemma_str_lt_irreflexive(x);
            assert(a.to_set().contains(x));
            assert(b.to_set().contains(x));
            let m = choose|m: int| 0 <= m < b.len() && b[m] == x;
            assert(m != 0);
            assert(b1[m - 1] == x);
        }
        assert forall|x: Seq<char>| b1.to_set().contains(x) implies a1.to_set().contains(x) by {
            let k = choose|k: int| 0 <= k < b1.len() && b1[k] == x;
            assert(b[k + 1] == x);
            assert(str_lt(b[0], x));
            lemma_str_lt_irreflexive(x);
            assert(a.to_set().contains(x));
            let m = choose|m: int| 0 <= m < a.len() && a[m] == x;
            assert(m != 0);
            assert(a1[m - 1] == x);
        }
        assert(a1.to_set() =~= b1.to_set());
        lemma_sorted_lists_unique(a1, b1);
        assert(a =~= seq![a[0]] + a1);
        assert(b =~= seq![b[0]] + b1);
    }
}

/// Checking an expression twice on the same filesystem gives the same
/// answer: both succeed or both fail, and failures carry the same lists
/// and the same message.
pub proof fn lemma_check_is_repeatable(
    req: FileRequirement,
    fs: Filesystem,
    r1: Result<(), FileRequirementCheckError>,
    r2: Result<(), FileRequirementCheckError>,
)
    requires
        check_outcome(req, fs, r1),
        check_outcome(req, fs, r2),
    ensures
        r1 is Ok <==> r2 is Ok,
        r1 is Err ==> r1->Err_0.missing() == r2->Err_0.missing()
            && r1->Err_0.io() == r2->Err_0.io()
            && r1->Err_0.disj() == r2->Err_0.disj()
            && r1->Err_0.text() == r2->Err_0.text(),
{
    if r1 is Err {
        let e1 = r1->Err_0;
        let e2 = r2->Err_0;
        lemma_sorted_lists_unique(e1.missing(), e2.missing());
        lemma_sorted_lists_unique(e1.io(), e2.io());
        lemma_sorted_lists_unique(e1.disj(), e2.disj());
    }
}

/// A path placed anywhere in the tree under construction is taken, so a
/// second `require_file` of it fails with `DuplicateFile` and leaves the
/// terms as they were.
pub proof fn lemma_placed_path_is_taken(b: FileRequirementBuilder, p: Seq<char>)
    requires
        b.wf(),
        leaves_list(b.terms()).contains(p),
    ensures
        b.taken().contains(p),
{
    assert(leaves_list(b.terms()).to_set().contains(p));
}

/// Within a nested group too, a path placed in the group or taken outside
/// it is taken, so inserting it again fails.
pub proof fn lemma_group_placed_path_is_taken(g: GroupBuilder, p: Seq<char>)
    requires
        g.wf(),
        leaves_list(g.terms()).contains(p) || g.outer().contains(p),
    ensures
        g.taken().contains(p),
{
    if leaves_list(g.terms()).contains(p) {
        assert(leaves_list(g.terms()).to_set().contains(p));
    }
}

/// The rendering of a list of children is their renderings, in insertion
/// order, joined with the separator: one rendering per tree and per order.
pub proof fn lemma_rendering_joins_children(cs: Seq<FileRequirement>, sep: Seq<char>)
    ensures
        rendered_list(cs, sep) == join(cs.map_values(|c: FileRequirement| rendered(c)), sep),
    decreases cs.len(),
{
    let m = cs.map_values(|c: FileRequirement| rendered(c));
    if cs.len() > 1 {
        lemma_rendering_joins_children(cs.drop_last(), sep);
        assert(m.drop_last() =~= cs.drop_last().map_values(|c: FileRequirement| rendered(c)));
    }
}

/// A group renders as `(`, its children's renderings joined by ` AND ` or
/// ` OR `, and `)`.
pub proof fn lemma_group_rendering(r: FileRequirement)
    requires
        r is All || r is Any,
    ensures
        r is All ==> rendered(r) == "("@ + join(r->All_0@.map_values(|c: FileRequirement| rendered(c)), " AND "@) + ")"@,
        r is Any ==> rendered(r) == "("@ + join(r->Any_0@.map_values(|c: FileRequirement| rendered(c)), " OR "@) + ")"@,
{
    match r {
        FileRequirement::All(cs) => lemma_rendering_joins_children(cs@, " AND "@),
        FileRequirement::Any(cs) => lemma_rendering_joins_children(cs@, " OR "@),
        FileRequirement::File(_) => {},
    }
}

/// The path of child indices `path` leads from `r` to a node, through
/// `AND` groups only.
pub open spec fn and_path(r: FileRequirement, path: Seq<int>) -> bool
    decreases path.len(),
{
    path.len() == 0 || (r is All && 0 <= path[0] < r->All_0@.len() && and_path(
        r->All_0@[path[0]],
        path.drop_first(),
    ))
}

/// The node that `path` leads to from `r`.
pub open spec fn node_at(r: FileRequirement, path: Seq<int>) -> FileRequirement
    decreases path.len(),
{
    if path.len() == 0 {
        r
    } else if r is All && 0 <= path[0] < r->All_0@.len() {
        node_at(r->All_0@[path[0]], path.drop_first())
    } else {
        r
    }
}

/// A node reached from `r` through `AND` groups only passes its failure and
/// its whole report up: if it is unsatisfied, so is `r`, and every missing
/// path, probe failure and unsatisfied `OR` group it reports, `r` reports.
/// With `lemma_any_failing_reports_all_branches`, an unsatisfied `OR` group
/// under `AND` ancestors is named in the report of the whole tree together
/// with what all its branches report.
pub proof fn lemma_and_ancestors_keep_report(r: FileRequirement, path: Seq<int>, fs: Filesystem)
    requires
        and_path(r, path),
    ensures
        !eval(node_at(r, path), fs).0 ==> !eval(r, fs).0,
        eval(node_at(r, path), fs).1.missing.subset_of(eval(r, fs).1.missing),
        eval(node_at(r, path), fs).1.io.subset_of(eval(r, fs).1.io),
        eval(node_at(r, path), fs).1.disj.subset_of(eval(r, fs).1.disj),
    decreases path.len(),
{
    if path.len() > 0 {
        let cs = r->All_0@;
        let k = path[0];
        let c = cs[k];
        lemma_and_ancestors_keep_report(c, path.drop_first(), fs);
        lemma_all_reports_every_child(r, fs);
        assert(node_at(r, path) == node_at(c, path.drop_first()));
        if !eval(c, fs).0 {
            assert(!eval(r, fs).0);
        }
        assert forall|x: Seq<char>| eval(c, fs).1.missing.contains(x) implies #[trigger] eval(r, fs).1.missing.contains(x) by {}
        assert forall|x: Seq<char>| eval(c, fs).1.io.contains(x) implies #[trigger] eval(r, fs).1.io.contains(x) by {}
        assert forall|x: Seq<char>| eval(c, fs).1.disj.contains(x) implies #[trigger] eval(r, fs).1.disj.contains(x) by {}
    }
}

/// Evaluation looks only at paths of the expression's own file terms, so
/// together with the fresh, distinct cache entries of the evaluator a check
/// probes no more paths than the expression has distinct file terms.
pub proof fn lemma_reached_within_leaves(r: FileRequirement, fs: Filesystem)
    ensures
        reached(r, fs).subset_of(leaves(r).to_set()),
    decreases r,
{
    match r {
        FileRequirement::File(p) => {
            assert(leaves(r)[0] == p@);
        },
        FileRequirement::All(cs) => lemma_reached_lists_within_leaves(cs@, fs),
        FileRequirement::Any(cs) => lemma_reached_lists_within_leaves(cs@, fs),
    }
}

proof fn lemma_reached_lists_within_leaves(cs: Seq<FileRequirement>, fs: Filesystem)
    ensures
        reached_all(cs, fs).subset_of(leaves_list(cs).to_set()),
        reached_any(cs, fs).subset_of(leaves_list(cs).to_set()),
    decreases cs,
{
    if cs.len() > 0 {
        lemma_reached_lists_within_leaves(cs.drop_last(), fs);
        lemma_reached_within_leaves(cs.last(), fs);
        vstd::seq_lib::seq_to_set_distributes_over_add(leaves_list(cs.drop_last()), leaves(cs.last()));
    }
}

} // verus!
