//! Strings as the diagnostics need them: a total order on character
//! sequences, sorted duplicate-free lists, and joining with a separator.
use vstd::prelude::*;

verus! {

/// Lexicographic order on character sequences, by code point (the order of
/// `String` as UTF-8 bytes).
pub open spec fn str_lt(a: Seq<char>, b: Seq<char>) -> bool
    decreases a.len(),
{
    if a.len() == 0 {
        b.len() > 0
    } else if b.len() == 0 {
        false
    } else if a[0] != b[0] {
        (a[0] as int) < (b[0] as int)
    } else {
        str_lt(a.drop_first(), b.drop_first())
    }
}

/// No sequence is below itself.
pub proof fn lemma_str_lt_irreflexive(a: Seq<char>)
    ensures
        !str_lt(a, a),
    decreases a.len(),
{
    if a.len() > 0 {
        lemma_str_lt_irreflexive(a.drop_first());
    }
}

/// Of two distinct sequences exactly one is below the other.
pub proof fn lemma_str_lt_total(a: Seq<char>, b: Seq<char>)
    ensures
        a != b ==> str_lt(a, b) || str_lt(b, a),
        !(str_lt(a, b) && str_lt(b, a)),
    decreases a.len(),
{
    if a.len() > 0 && b.len() > 0 {
        if a[0] == b[0] {
            lemma_str_lt_total(a.drop_first(), b.drop_first());
            if a != b {
                assert(a =~= seq![a[0]] + a.drop_first());
                assert(b =~= seq![b[0]] + b.drop_first());
            }
        } else {
            assert((a[0] as int) != (b[0] as int));
        }
    } else if a.len() == 0 && b.len() == 0 {
        assert(a =~= b);
    }
}

/// The order is transitive.
pub proof fn lemma_str_lt_transitive(a: Seq<char>, b: Seq<char>, c: Seq<char>)
    requires
        str_lt(a, b),
        str_lt(b, c),
    ensures
        str_lt(a, c),
    decreases a.len(),
{
    if a.len() > 0 && a[0] == b[0] && b[0] == c[0] {
        lemma_str_lt_transitive(a.drop_first(), b.drop_first(), c.drop_first());
    }
}

/// The strings of `v`, as character sequences.
pub open spec fn chars_of(v: Seq<String>) -> Seq<Seq<char>> {
    v.map_values(|s: String| s@)
}

/// Strictly increasing: sorted and free of duplicates.
pub open spec fn strictly_sorted(q: Seq<Seq<char>>) -> bool {
    forall|i: int, j: int| 0 <= i < j < q.len() ==> str_lt(#[trigger] q[i], #[trigger] q[j])
}

/// Compares two strings by `str_lt`.
pub fn less_than(a: &str, b: &str) -> (r: bool)
    ensures
        r == str_lt(a@, b@),
{
    let la = a.unicode_len();
    let lb = b.unicode_len();
    let mut i: usize = 0;
    proof {
        assert(a@.skip(0) =~= a@);
        assert(b@.skip(0) =~= b@);
    }
    while i < la && i < lb
        invariant
            la == a@.len(),
            lb == b@.len(),
            i <= la,
            i <= lb,
            str_lt(a@, b@) == str_lt(a@.skip(i as int), b@.skip(i as int)),
        decreases la - i,
    {
        let ca = a.get_char(i);
        let cb = b.get_char(i);
        if ca != cb {
            return (ca as u32) < (cb as u32);
        }
        proof {
            assert(a@.skip(i as int).drop_first() =~= a@.skip(i + 1));
            assert(b@.skip(i as int).drop_first() =~= b@.skip(i + 1));
        }
        i = i + 1;
    }
    i < lb
}

/// Inserts `s` into the strictly sorted list `v`, unless it is there already.
pub fn insert_sorted(v: &mut Vec<String>, s: String)
    requires
        strictly_sorted(chars_of(old(v)@)),
    ensures
        strictly_sorted(chars_of(final(v)@)),
        chars_of(final(v)@).to_set() == chars_of(old(v)@).to_set().insert(s@),
{
    let ghost q0 = chars_of(v@);
    let mut i: usize = 0;
    while i < v.len() && less_than(v[i].as_str(), s.as_str())
        invariant
            v@ == old(v)@,
            q0 == chars_of(v@),
            i <= v.len(),
            strictly_sorted(q0),
            forall|k: int| 0 <= k < i ==> str_lt(#[trigger] q0[k], s@),
        decreases v.len() - i,
    {
        i = i + 1;
    }
    if i < v.len() && v[i] == s {
        proof {
            assert(q0.to_set().insert(s@) =~= q0.to_set()) by {
                assert(q0[i as int] == s@);
            }
        }
        return;
    }
    proof {
        if i < v.len() {
            lemma_str_lt_total(q0[i as int], s@);
            assert forall|k: int| i <= k < q0.len() implies str_lt(s@, #[trigger] q0[k]) by {
                if k > i {
                    lemma_str_lt_transitive(s@, q0[i as int], q0[k]);
                }
            }
        }
    }
    let ghost sv = s@;
    v.insert(i, s);
    proof {
        let q1 = chars_of(v@);
        assert(q1 =~= q0.insert(i as int, sv));
        assert forall|a: int, b: int| 0 <= a < b < q1.len() implies str_lt(
            #[trigger] q1[a],
            #[trigger] q1[b],
        ) by {
            if b < i {
            } else if a < i && b == i {
            } else if a < i {
                lemma_str_lt_transitive(q1[a], sv, q1[b]);
            } else if a == i {
            } else {
            }
        }
        assert(q1.to_set() =~= q0.to_set().insert(sv)) by {
            assert forall|x: Seq<char>| q1.to_set().contains(x) implies q0.to_set().insert(
                sv,
            ).contains(x) by {
                let k = choose|k: int| 0 <= k < q1.len() && q1[k] == x;
                if k < i {
                    assert(q0[k] == x);
                } else if k > i {
                    assert(q0[k - 1] == x);
                }
            }
            assert forall|x: Seq<char>| q0.to_set().insert(sv).contains(x) implies q1.to_set().contains(
                x,
            ) by {
                if x == sv {
                    assert(q1[i as int] == x);
                } else {
                    let k = choose|k: int| 0 <= k < q0.len() && q0[k] == x;
                    if k < i {
                        assert(q1[k] == x);
                    } else {
                        assert(q1[k + 1] == x);
                    }
                }
            }
        }
    }
}

/// The items joined with `sep` between each two.
pub open spec fn join(items: Seq<Seq<char>>, sep: Seq<char>) -> Seq<char>
    decreases items.len(),
{
    if items.len() == 0 {
        seq![]
    } else if items.len() == 1 {
        items[0]
    } else {
        join(items.drop_last(), sep) + sep + items.last()
    }
}

/// Joins the strings of `v` with `sep` between each two.
pub fn join_strings(v: &Vec<String>, sep: &str) -> (r: String)
    ensures
        r@ == join(chars_of(v@), sep@),
{
    let mut r = String::new();
    let mut i: usize = 0;
    while i < v.len()
        invariant
            i <= v.len(),
            r@ == join(chars_of(v@).take(i as int), sep@),
        decreases v.len() - i,
    {
        proof {
            let q = chars_of(v@).take(i + 1);
            assert(q.drop_last() =~= chars_of(v@).take(i as int));
        }
        if i > 0 {
            r.append(sep);
        }
        r.append(v[i].as_str());
        i = i + 1;
    }
    proof {
        assert(chars_of(v@).take(i as int) =~= chars_of(v@));
    }
    r
}

/// Whether `v` holds a string equal to `s`.
pub fn contains_string(v: &Vec<String>, s: &String) -> (r: bool)
    ensures
        r == chars_of(v@).contains(s@),
{
    let mut i: usize = 0;
    while i < v.len()
        invariant
            i <= v.len(),
            forall|k: int| 0 <= k < i ==> chars_of(v@)[k] != s@,
        decreases v.len() - i,
    {
        if v[i] == *s {
            proof {
                assert(chars_of(v@)[i as int] == s@);
            }
            return true;
        }
        i = i + 1;
    }
    false
}

} // verus!
