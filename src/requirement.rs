//! The requirement expression: a tree of file terms under AND / OR groups,
//! its canonical rendering, and the facts about its shape that the builder
//! guarantees.
use vstd::prelude::*;

verus! {

broadcast use {vstd::std_specs::vec::group_vec_axioms, vstd::seq::group_seq_axioms};

/// A boolean file existence requirement expression.
#[derive(Debug)]
pub enum FileRequirement {
    /// A single file term that must exist.
    File(String),
    /// All children must be satisfied (`AND`).
    All(Vec<FileRequirement>),
    /// At least one child must be satisfied (`OR`).
    Any(Vec<FileRequirement>),
}

/// The canonical rendering: a file renders as its path, a group as its
/// children's renderings joined by ` AND ` or ` OR `, in parentheses.
pub open spec fn rendered(r: FileRequirement) -> Seq<char>
    decreases r,
{
    match r {
        FileRequirement::File(p) => p@,
        FileRequirement::All(cs) => "("@ + rendered_list(cs@, " AND "@) + ")"@,
        FileRequirement::Any(cs) => "("@ + rendered_list(cs@, " OR "@) + ")"@,
    }
}

/// The renderings of `cs`, joined with `sep`.
pub open spec fn rendered_list(cs: Seq<FileRequirement>, sep: Seq<char>) -> Seq<char>
    decreases cs,
{
    if cs.len() == 0 {
        seq![]
    } else if cs.len() == 1 {
        rendered(cs[0])
    } else {
        rendered_list(cs.drop_last(), sep) + sep + rendered(cs.last())
    }
}

/// The paths of the file terms of `r`, left to right.
pub open spec fn leaves(r: FileRequirement) -> Seq<Seq<char>>
    decreases r,
{
    match r {
        FileRequirement::File(p) => seq![p@],
        FileRequirement::All(cs) => leaves_list(cs@),
        FileRequirement::Any(cs) => leaves_list(cs@),
    }
}

/// The paths of the file terms of `cs`, left to right.
pub open spec fn leaves_list(cs: Seq<FileRequirement>) -> Seq<Seq<char>>
    decreases cs,
{
    if cs.len() == 0 {
        seq![]
    } else {
        leaves_list(cs.drop_last()) + leaves(cs.last())
    }
}

/// Every group below `r`, and `r` itself if it is one, has a child.
pub open spec fn groups_nonempty(r: FileRequirement) -> bool
    decreases r,
{
    match r {
        FileRequirement::File(_) => true,
        FileRequirement::All(cs) => cs.len() > 0 && groups_nonempty_list(cs@),
        FileRequirement::Any(cs) => cs.len() > 0 && groups_nonempty_list(cs@),
    }
}

/// Every group in the trees of `cs` has a child.
pub open spec fn groups_nonempty_list(cs: Seq<FileRequirement>) -> bool
    decreases cs,
{
    if cs.len() == 0 {
        true
    } else {
        groups_nonempty_list(cs.drop_last()) && groups_nonempty(cs.last())
    }
}

impl FileRequirement {
    /// The canonical rendering of this expression.
    pub fn to_string(&self) -> (r: String)
        ensures
            r@ == rendered(*self),
        decreases self,
    {
        match self {
            FileRequirement::File(p) => p.clone(),
            FileRequirement::All(cs) => render_group(cs, " AND "),
            FileRequirement::Any(cs) => render_group(cs, " OR "),
        }
    }
}

impl Clone for FileRequirement {
    fn clone(&self) -> (r: FileRequirement)
        decreases self,
    {
        match self {
            FileRequirement::File(p) => FileRequirement::File(p.clone()),
            FileRequirement::All(cs) => FileRequirement::All(clone_children(cs)),
            FileRequirement::Any(cs) => FileRequirement::Any(clone_children(cs)),
        }
    }
}

fn clone_children(cs: &Vec<FileRequirement>) -> (r: Vec<FileRequirement>)
    decreases cs,
{
    let mut r: Vec<FileRequirement> = Vec::new();
    let mut i: usize = 0;
    while i < cs.len()
        invariant
            i <= cs.len(),
        decreases cs.len() - i,
    {
        r.push(cs[i].clone());
        i = i + 1;
    }
    r
}

fn render_group(cs: &Vec<FileRequirement>, sep: &str) -> (r: String)
    ensures
        r@ == "("@ + rendered_list(cs@, sep@) + ")"@,
    decreases cs,
{
    let mut r = String::from_str("(");
    let mut i: usize = 0;
    while i < cs.len()
        invariant
            i <= cs.len(),
            r@ == "("@ + rendered_list(cs@.take(i as int), sep@),
        decreases cs.len() - i,
    {
        proof {
            assert(cs@.take(i + 1).drop_last() =~= cs@.take(i as int));
        }
        if i > 0 {
            r.append(sep);
        }
        let part = cs[i].to_string();
        r.append(part.as_str());
        i = i + 1;
    }
    proof {
        assert(cs@.take(i as int) =~= cs@);
    }
    r.append(")");
    r
}

} // verus!
