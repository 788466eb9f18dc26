//! Building a requirement expression: file terms and nested AND / OR groups,
//! with every path used once in the whole tree and no group left empty.
use vstd::prelude::*;
use crate::requirement::{
    FileRequirement, groups_nonempty, groups_nonempty_list, leaves, leaves_list,
};
use crate::text::{chars_of, contains_string};

verus! {

broadcast use {vstd::std_specs::vec::group_vec_axioms, vstd::seq::group_seq_axioms};

/// Errors produced while building a requirement expression.
#[derive(Debug)]
pub enum FileRequirementBuildError {
    /// A term was inserted twice anywhere in the tree.
    DuplicateFile { path: String },
    /// A group was created but no children were added.
    EmptyGroup { group: &'static str },
}

/// `r` is the file term for `path`.
pub open spec fn is_file_term(r: FileRequirement, path: Seq<char>) -> bool {
    r matches FileRequirement::File(p) && p@ == path
}

/// The name of a group kind in errors: `AND` or `OR`.
pub open spec fn group_name_spec(conjunction: bool) -> &'static str {
    if conjunction {
        "AND"
    } else {
        "OR"
    }
}

fn group_name(conjunction: bool) -> (r: &'static str)
    ensures
        r == group_name_spec(conjunction),
{
    if conjunction {
        "AND"
    } else {
        "OR"
    }
}

/// `r` is the group of the given kind over `cs`.
pub open spec fn is_group(r: FileRequirement, conjunction: bool, cs: Seq<FileRequirement>) -> bool {
    if conjunction {
        r matches FileRequirement::All(v) && v@ == cs
    } else {
        r matches FileRequirement::Any(v) && v@ == cs
    }
}

/// Nested group builder used to create `AND` / `OR` sub-expressions.
pub struct GroupBuilder {
    terms: Vec<FileRequirement>,
    seen_terms: Vec<String>,
    outer: Ghost<Set<Seq<char>>>,
}

impl GroupBuilder {
    /// The terms of this group so far, in insertion order.
    pub closed spec fn terms(&self) -> Seq<FileRequirement> {
        self.terms@
    }

    /// Every path taken so far in the whole tree under construction.
    pub closed spec fn taken(&self) -> Set<Seq<char>> {
        chars_of(self.seen_terms@).to_set()
    }

    /// The paths that were taken outside this group when it was opened.
    pub closed spec fn outer(&self) -> Set<Seq<char>> {
        self.outer@
    }

    /// The terms hold no path twice and no empty group, each of their paths
    /// is taken, and none of them was taken outside the group.
    pub open spec fn wf(&self) -> bool {
        let ls = leaves_list(self.terms());
        &&& ls.no_duplicates()
        &&& groups_nonempty_list(self.terms())
        &&& ls.to_set().subset_of(self.taken())
        &&& self.outer().subset_of(self.taken())
        &&& ls.to_set().disjoint(self.outer())
    }

    #[verifier::type_invariant]
    spec fn inv(&self) -> bool {
        self.wf()
    }

    fn new(seen_terms: Vec<String>) -> (g: GroupBuilder)
        ensures
            g.terms() == Seq::<FileRequirement>::empty(),
            g.taken() == chars_of(seen_terms@).to_set(),
            g.outer() == chars_of(seen_terms@).to_set(),
    {
        GroupBuilder { terms: Vec::new(), seen_terms, outer: Ghost(chars_of(seen_terms@).to_set()) }
    }

    /// Add a required file term to this group.
    pub fn require_file(&mut self, path: &str) -> (r: Result<(), FileRequirementBuildError>)
        ensures
            final(self).wf(),
            final(self).outer() == old(self).outer(),
            r is Ok <==> !old(self).taken().contains(path@),
            r is Ok ==> final(self).terms().len() == old(self).terms().len() + 1
                && final(self).terms().drop_last() == old(self).terms()
                && is_file_term(final(self).terms().last(), path@)
                && final(self).taken() == old(self).taken().insert(path@),
            r matches Err(e) ==> e matches FileRequirementBuildError::DuplicateFile { path: p } && p@ == path@,
            r is Err ==> final(self).terms() == old(self).terms()
                && final(self).taken() == old(self).taken(),
    {
        proof {
            use_type_invariant(&*self);
        }
        let owned = String::from_str(path);
        if contains_string(&self.seen_terms, &owned) {
            return Err(FileRequirementBuildError::DuplicateFile { path: owned });
        }
        let mut cur = GroupBuilder::new(Vec::new());
        std::mem::swap(self, &mut cur);
        proof {
            use_type_invariant(&cur);
        }
        let GroupBuilder { mut terms, mut seen_terms, outer } = cur;
        let ghost old_terms = terms@;
        let ghost old_seen = chars_of(seen_terms@);
        seen_terms.push(owned.clone());
        let node = FileRequirement::File(owned);
        let ghost gnode = node;
        terms.push(node);
        proof {
            assert(terms@.drop_last() =~= old_terms);
            assert(chars_of(seen_terms@) =~= old_seen.push(path@));
            old_seen.lemma_push_to_set_commute(path@);
            assert(leaves(terms@.last()) =~= seq![path@]);
            assert(leaves_list(terms@) =~= leaves_list(old_terms).push(path@));
            leaves_list(old_terms).lemma_push_to_set_commute(path@);
            assert(!leaves_list(old_terms).to_set().contains(path@));
            assert(groups_nonempty(gnode));
            assert(terms@.last() == gnode);
        }
        *self = GroupBuilder { terms, seen_terms, outer };
        Ok(())
    }

    /// Add a nested conjunction (`AND`) group, filled by `f`. `f` gets a
    /// handle on the new, empty group; it may add terms and groups through
    /// it and must leave its outer paths as they were, which the handle's
    /// methods do. The group is appended when `f` succeeds and added a child.
    pub fn require_all<F>(&mut self, f: F) -> (r: Result<(), FileRequirementBuildError>)
        where
            F: FnOnce(&mut GroupBuilder) -> Result<(), FileRequirementBuildError>,
        requires
            forall|g: &mut GroupBuilder| #[trigger] f.requires((g,)),
            forall|g: &mut GroupBuilder, r: Result<(), FileRequirementBuildError>|
                #[trigger] f.ensures((g,), r) ==> final(g).outer() == (*g).outer(),
        ensures
            final(self).wf(),
            final(self).outer() == old(self).outer(),
            old(self).taken().subset_of(final(self).taken()),
            r is Ok ==> final(self).terms().len() == old(self).terms().len() + 1
                && final(self).terms().drop_last() == old(self).terms()
                && exists|g: &mut GroupBuilder, fr: Result<(), FileRequirementBuildError>|
                #[trigger] f.ensures((g,), fr)
                    && fr is Ok
                    && (*g).terms().len() == 0
                    && (*g).outer() == old(self).taken()
                    && (*g).taken() == old(self).taken()
                    && final(self).taken() == final(g).taken()
                    && final(g).terms().len() > 0
                    && is_group(final(self).terms().last(), true, final(g).terms()),
            r is Err ==> final(self).terms() == old(self).terms(),
            r matches Err(e) ==> (exists|g: &mut GroupBuilder|
                #[trigger] f.ensures((g,), Err(e))
                    && (*g).terms().len() == 0
                    && (*g).outer() == old(self).taken()
                    && (*g).taken() == old(self).taken()
                    && final(self).taken() == final(g).taken())
                || (e == FileRequirementBuildError::EmptyGroup { group: group_name_spec(true) }
                    && exists|g: &mut GroupBuilder, fr: Result<(), FileRequirementBuildError>|
                    #[trigger] f.ensures((g,), fr)
                        && fr is Ok
                        && (*g).terms().len() == 0
                        && (*g).outer() == old(self).taken()
                    && (*g).taken() == old(self).taken()
                    && final(self).taken() == final(g).taken()
                        && final(g).terms().len() == 0),
    {
        self.require_group(f, true)
    }

    /// Add a nested disjunction (`OR`) group, filled by `f`, on the same
    /// terms as `require_all`.
    pub fn require_any<F>(&mut self, f: F) -> (r: Result<(), FileRequirementBuildError>)
        where
            F: FnOnce(&mut GroupBuilder) -> Result<(), FileRequirementBuildError>,
        requires
            forall|g: &mut GroupBuilder| #[trigger] f.requires((g,)),
            forall|g: &mut GroupBuilder, r: Result<(), FileRequirementBuildError>|
                #[trigger] f.ensures((g,), r) ==> final(g).outer() == (*g).outer(),
        ensures
            final(self).wf(),
            final(self).outer() == old(self).outer(),
            old(self).taken().subset_of(final(self).taken()),
            r is Ok ==> final(self).terms().len() == old(self).terms().len() + 1
                && final(self).terms().drop_last() == old(self).terms()
                && exists|g: &mut GroupBuilder, fr: Result<(), FileRequirementBuildError>|
                #[trigger] f.ensures((g,), fr)
                    && fr is Ok
                    && (*g).terms().len() == 0
                    && (*g).outer() == old(self).taken()
                    && (*g).taken() == old(self).taken()
                    && final(self).taken() == final(g).taken()
                    && final(g).terms().len() > 0
                    && is_group(final(self).terms().last(), false, final(g).terms()),
            r is Err ==> final(self).terms() == old(self).terms(),
            r matches Err(e) ==> (exists|g: &mut GroupBuilder|
                #[trigger] f.ensures((g,), Err(e))
                    && (*g).terms().len() == 0
                    && (*g).outer() == old(self).taken()
                    && (*g).taken() == old(self).taken()
                    && final(self).taken() == final(g).taken())
                || (e == FileRequirementBuildError::EmptyGroup { group: group_name_spec(false) }
                    && exists|g: &mut GroupBuilder, fr: Result<(), FileRequirementBuildError>|
                    #[trigger] f.ensures((g,), fr)
                        && fr is Ok
                        && (*g).terms().len() == 0
                        && (*g).outer() == old(self).taken()
                    && (*g).taken() == old(self).taken()
                    && final(self).taken() == final(g).taken()
                        && final(g).terms().len() == 0),
    {
        self.require_group(f, false)
    }

    fn require_group<F>(&mut self, f: F, conjunction: bool) -> (r: Result<(), FileRequirementBuildError>)
        where
            F: FnOnce(&mut GroupBuilder) -> Result<(), FileRequirementBuildError>,
        requires
            forall|g: &mut GroupBuilder| #[trigger] f.requires((g,)),
            forall|g: &mut GroupBuilder, r: Result<(), FileRequirementBuildError>|
                #[trigger] f.ensures((g,), r) ==> final(g).outer() == (*g).outer(),
        ensures
            final(self).wf(),
            final(self).outer() == old(self).outer(),
            old(self).taken().subset_of(final(self).taken()),
            r is Ok ==> final(self).terms().len() == old(self).terms().len() + 1
                && final(self).terms().drop_last() == old(self).terms()
                && exists|g: &mut GroupBuilder, fr: Result<(), FileRequirementBuildError>|
                #[trigger] f.ensures((g,), fr)
                    && fr is Ok
                    && (*g).terms().len() == 0
                    && (*g).outer() == old(self).taken()
                    && (*g).taken() == old(self).taken()
                    && final(self).taken() == final(g).taken()
                    && final(g).terms().len() > 0
                    && is_group(final(self).terms().last(), conjunction, final(g).terms()),
            r is Err ==> final(self).terms() == old(self).terms(),
            r matches Err(e) ==> (exists|g: &mut GroupBuilder|
                #[trigger] f.ensures((g,), Err(e))
                    && (*g).terms().len() == 0
                    && (*g).outer() == old(self).taken()
                    && (*g).taken() == old(self).taken()
                    && final(self).taken() == final(g).taken())
                || (e == FileRequirementBuildError::EmptyGroup { group: group_name_spec(conjunction) }
                    && exists|g: &mut GroupBuilder, fr: Result<(), FileRequirementBuildError>|
                    #[trigger] f.ensures((g,), fr)
                        && fr is Ok
                        && (*g).terms().len() == 0
                        && (*g).outer() == old(self).taken()
                    && (*g).taken() == old(self).taken()
                    && final(self).taken() == final(g).taken()
                        && final(g).terms().len() == 0),
    {
        proof {
            use_type_invariant(&*self);
        }
        let mut cur = GroupBuilder::new(Vec::new());
        std::mem::swap(self, &mut cur);
        proof {
            use_type_invariant(&cur);
        }
        let GroupBuilder { mut terms, seen_terms, outer } = cur;
        let mut child = GroupBuilder::new(seen_terms);
        let ghost child0 = child;
        let child_ref = &mut child;
        let ghost gref = child_ref;
        let res = f(child_ref);
        proof {
            use_type_invariant(&child);
        }
        let ghost child1 = child;
        let GroupBuilder { terms: child_terms, seen_terms, outer: _ } = child;
        match res {
            Err(e) => {
                *self = GroupBuilder { terms, seen_terms, outer };
                return Err(e);
            },
            Ok(()) => {},
        }
        proof {
            assert(child0.terms().len() == 0);
            assert(child0.outer() == cur.taken());
            assert(child1.terms() == child_terms@);
            assert(exists|g: &mut GroupBuilder| f.ensures((g,), res) && *g == child0 && *final(g) == child1);
        }
        let ghost gw = choose|g: &mut GroupBuilder| f.ensures((g,), res) && *g == child0 && *final(g) == child1;
        proof {
            assert(f.ensures((gw,), res));
        }
        if child_terms.len() == 0 {
            *self = GroupBuilder { terms, seen_terms, outer };
            return Err(FileRequirementBuildError::EmptyGroup { group: group_name(conjunction) });
        }
        let ghost old_terms = terms@;
        let ghost cs = child_terms@;
        let node = if conjunction {
            FileRequirement::All(child_terms)
        } else {
            FileRequirement::Any(child_terms)
        };
        let ghost gnode = node;
        terms.push(node);
        proof {
            let a = leaves_list(old_terms);
            let b = leaves_list(cs);
            assert(terms@.drop_last() =~= old_terms);
            assert(terms@.last() == gnode);
            assert(leaves(gnode) == b);
            assert(leaves_list(terms@) == a + b);
            vstd::seq_lib::seq_to_set_distributes_over_add(a, b);
            assert((a + b).no_duplicates()) by {
                assert forall|i: int, j: int| 0 <= i < j < (a + b).len() implies (a + b)[i] != (a
                    + b)[j] by {
                    if i < a.len() && j >= a.len() {
                        assert(a.to_set().contains(a[i]));
                        assert(b.to_set().contains(b[j - a.len()]));
                    }
                }
            }
            assert(groups_nonempty(gnode));
            assert(is_group(gnode, conjunction, child1.terms()));
        }
        *self = GroupBuilder { terms, seen_terms, outer };
        Ok(())
    }
}

/// Builder for composable file requirements. The root group is an
/// implicit `AND` group.
pub struct FileRequirementBuilder {
    root: GroupBuilder,
}

impl FileRequirementBuilder {
    /// The root terms so far, in insertion order.
    pub closed spec fn terms(&self) -> Seq<FileRequirement> {
        self.root.terms()
    }

    /// Every path taken so far in the tree under construction.
    pub closed spec fn taken(&self) -> Set<Seq<char>> {
        self.root.taken()
    }

    /// The root terms hold no path twice and no empty group, and each of
    /// their paths is taken.
    pub open spec fn wf(&self) -> bool {
        let ls = leaves_list(self.terms());
        &&& ls.no_duplicates()
        &&& groups_nonempty_list(self.terms())
        &&& ls.to_set().subset_of(self.taken())
    }

    /// Create a new builder.
    pub fn new() -> (b: FileRequirementBuilder)
        ensures
            b.wf(),
            b.terms() == Seq::<FileRequirement>::empty(),
            b.taken() == Set::<Seq<char>>::empty(),
    {
        let b = FileRequirementBuilder { root: GroupBuilder::new(Vec::new()) };
        proof {
            assert(chars_of(Seq::<String>::empty()).to_set() =~= Set::<Seq<char>>::empty());
            use_type_invariant(&b.root);
        }
        b
    }

    /// Add a required file to the root conjunction.
    pub fn require_file(&mut self, path: &str) -> (r: Result<(), FileRequirementBuildError>)
        ensures
            final(self).wf(),
            r is Ok <==> !old(self).taken().contains(path@),
            r is Ok ==> final(self).terms().len() == old(self).terms().len() + 1
                && final(self).terms().drop_last() == old(self).terms()
                && is_file_term(final(self).terms().last(), path@)
                && final(self).taken() == old(self).taken().insert(path@),
            r matches Err(e) ==> e matches FileRequirementBuildError::DuplicateFile { path: p } && p@ == path@,
            r is Err ==> final(self).terms() == old(self).terms()
                && final(self).taken() == old(self).taken(),
    {
        let r = self.root.require_file(path);
        proof {
            use_type_invariant(&self.root);
        }
        r
    }

    /// Add a nested conjunction (`AND`) to the root conjunction.
    pub fn require_all<F>(&mut self, f: F) -> (r: Result<(), FileRequirementBuildError>)
        where
            F: FnOnce(&mut GroupBuilder) -> Result<(), FileRequirementBuildError>,
        requires
            forall|g: &mut GroupBuilder| #[trigger] f.requires((g,)),
            forall|g: &mut GroupBuilder, r: Result<(), FileRequirementBuildError>|
                #[trigger] f.ensures((g,), r) ==> final(g).outer() == (*g).outer(),
        ensures
            final(self).wf(),
            old(self).taken().subset_of(final(self).taken()),
            r is Ok ==> final(self).terms().len() == old(self).terms().len() + 1
                && final(self).terms().drop_last() == old(self).terms()
                && exists|g: &mut GroupBuilder, fr: Result<(), FileRequirementBuildError>|
                #[trigger] f.ensures((g,), fr)
                    && fr is Ok
                    && (*g).terms().len() == 0
                    && (*g).outer() == old(self).taken()
                    && (*g).taken() == old(self).taken()
                    && final(self).taken() == final(g).taken()
                    && final(g).terms().len() > 0
                    && is_group(final(self).terms().last(), true, final(g).terms()),
            r is Err ==> final(self).terms() == old(self).terms(),
            r matches Err(e) ==> (exists|g: &mut GroupBuilder|
                #[trigger] f.ensures((g,), Err(e))
                    && (*g).terms().len() == 0
                    && (*g).outer() == old(self).taken()
                    && (*g).taken() == old(self).taken()
                    && final(self).taken() == final(g).taken())
                || (e == FileRequirementBuildError::EmptyGroup { group: group_name_spec(true) }
                    && exists|g: &mut GroupBuilder, fr: Result<(), FileRequirementBuildError>|
                    #[trigger] f.ensures((g,), fr)
                        && fr is Ok
                        && (*g).terms().len() == 0
                        && (*g).outer() == old(self).taken()
                    && (*g).taken() == old(self).taken()
                    && final(self).taken() == final(g).taken()
                        && final(g).terms().len() == 0),
    {
        proof {
            use_type_invariant(&self.root);
        }
        let r = self.root.require_all(f);
        proof {
            use_type_invariant(&self.root);
        }
        r
    }

    /// Add a nested disjunction (`OR`) to the root conjunction.
    pub fn require_any<F>(&mut self, f: F) -> (r: Result<(), FileRequirementBuildError>)
        where
            F: FnOnce(&mut GroupBuilder) -> Result<(), FileRequirementBuildError>,
        requires
            forall|g: &mut GroupBuilder| #[trigger] f.requires((g,)),
            forall|g: &mut GroupBuilder, r: Result<(), FileRequirementBuildError>|
                #[trigger] f.ensures((g,), r) ==> final(g).outer() == (*g).outer(),
        ensures
            final(self).wf(),
            old(self).taken().subset_of(final(self).taken()),
            r is Ok ==> final(self).terms().len() == old(self).terms().len() + 1
                && final(self).terms().drop_last() == old(self).terms()
                && exists|g: &mut GroupBuilder, fr: Result<(), FileRequirementBuildError>|
                #[trigger] f.ensures((g,), fr)
                    && fr is Ok
                    && (*g).terms().len() == 0
                    && (*g).outer() == old(self).taken()
                    && (*g).taken() == old(self).taken()
                    && final(self).taken() == final(g).taken()
                    && final(g).terms().len() > 0
                    && is_group(final(self).terms().last(), false, final(g).terms()),
            r is Err ==> final(self).terms() == old(self).terms(),
            r matches Err(e) ==> (exists|g: &mut GroupBuilder|
                #[trigger] f.ensures((g,), Err(e))
                    && (*g).terms().len() == 0
                    && (*g).outer() == old(self).taken()
                    && (*g).taken() == old(self).taken()
                    && final(self).taken() == final(g).taken())
                || (e == FileRequirementBuildError::EmptyGroup { group: group_name_spec(false) }
                    && exists|g: &mut GroupBuilder, fr: Result<(), FileRequirementBuildError>|
                    #[trigger] f.ensures((g,), fr)
                        && fr is Ok
                        && (*g).terms().len() == 0
                        && (*g).outer() == old(self).taken()
                    && (*g).taken() == old(self).taken()
                    && final(self).taken() == final(g).taken()
                        && final(g).terms().len() == 0),
    {
        proof {
            use_type_invariant(&self.root);
        }
        let r = self.root.require_any(f);
        proof {
            use_type_invariant(&self.root);
        }
        r
    }

    /// Build the final requirement expression: an `AND` of the root terms.
    pub fn build(self) -> (r: FileRequirement)
        ensures
            r matches FileRequirement::All(cs) && cs@ == self.terms(),
            leaves(r) == leaves_list(self.terms()),
            leaves(r).no_duplicates(),
            groups_nonempty_list(self.terms()),
    {
        proof {
            use_type_invariant(&self.root);
        }
        let FileRequirementBuilder { root } = self;
        let GroupBuilder { terms, seen_terms: _, outer: _ } = root;
        FileRequirement::All(terms)
    }
}

impl Default for FileRequirementBuilder {
    fn default() -> (b: FileRequirementBuilder)
        ensures
            b.wf(),
            b.terms() == Seq::<FileRequirement>::empty(),
            b.taken() == Set::<Seq<char>>::empty(),
    {
        FileRequirementBuilder::new()
    }
}

} // verus!
