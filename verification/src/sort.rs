//! Sorting strings and task ids by their text.
use vstd::prelude::*;
use vstd::relations::{sorted_by, total_ordering, transitive};

use crate::strings::{lemma_lex_total, lemma_lex_total_ordering, lemma_lex_transitive, lex_le, lex_leq, str_lex_le, views};
use crate::task_id::{id_text, TaskId};

verus! {

/// Task ids ordered by their text `project:task`.
pub open spec fn id_le() -> spec_fn((Seq<char>, Seq<char>), (Seq<char>, Seq<char>)) -> bool {
    |a: (Seq<char>, Seq<char>), b: (Seq<char>, Seq<char>)| lex_le(id_text(a), id_text(b))
}

/// Strings ordered lexicographically.
pub open spec fn text_le() -> spec_fn(Seq<char>, Seq<char>) -> bool {
    |a: Seq<char>, b: Seq<char>| lex_le(a, b)
}

/// A sequence of texts in sorted order.
pub open spec fn sorted_texts(s: Seq<Seq<char>>) -> Seq<Seq<char>> {
    s.sort_by(text_le())
}

/// `text_le` is a total order.
pub proof fn lemma_text_le_total()
    ensures
        total_ordering(text_le()),
{
    lemma_lex_total_ordering();
    assert(text_le() =~= lex_leq());
}

/// A sorted sequence with the same elements as `s` is `sorted_texts(s)`.
pub proof fn lemma_is_sorted_texts(s: Seq<Seq<char>>, r: Seq<Seq<char>>)
    requires
        sorted_by(r, text_le()),
        r.to_multiset() == s.to_multiset(),
    ensures
        r == sorted_texts(s),
{
    lemma_text_le_total();
    s.lemma_sort_by_ensures(text_le());
    vstd::seq_lib::lemma_sorted_unique(r, s.sort_by(text_le()), text_le());
}

/// The ids of a sequence of task ids.
pub open spec fn ids_of(v: Seq<TaskId>) -> Seq<(Seq<char>, Seq<char>)> {
    v.map_values(|t: TaskId| t@)
}

proof fn lemma_insert_sorted<A>(s: Seq<A>, p: int, x: A, leq: spec_fn(A, A) -> bool)
    requires
        0 <= p <= s.len(),
        sorted_by(s, leq),
        transitive(leq),
        forall|q: int| 0 <= q < p ==> #[trigger] leq(s[q], x),
        p < s.len() ==> leq(x, s[p]),
    ensures
        sorted_by(s.insert(p, x), leq),
        s.insert(p, x).to_multiset() == s.to_multiset().insert(x),
{
    let t = s.insert(p, x);
    s.insert_ensures(p, x);
    assert forall|a: int, b: int| 0 <= a < b < t.len() implies #[trigger] leq(t[a], t[b]) by {
        if b < p {
        } else if b == p {
        } else if a == p {
            if b - 1 > p {
                assert(leq(s[p], s[b - 1]));
            }
        } else if a < p {
        } else {
        }
    }
    vstd::seq_lib::to_multiset_insert(s, p, x);
}

proof fn lemma_id_le_transitive()
    ensures
        transitive(id_le()),
{
    assert forall|x: (Seq<char>, Seq<char>), y: (Seq<char>, Seq<char>), z: (Seq<char>, Seq<char>)|
        #[trigger] id_le()(x, y) && #[trigger] id_le()(y, z) implies id_le()(x, z) by {
        lemma_lex_transitive(id_text(x), id_text(y), id_text(z));
    }
}

proof fn lemma_text_le_transitive()
    ensures
        transitive(text_le()),
{
    assert forall|x: Seq<char>, y: Seq<char>, z: Seq<char>|
        #[trigger] text_le()(x, y) && #[trigger] text_le()(y, z) implies text_le()(x, z) by {
        lemma_lex_transitive(x, y, z);
    }
}

/// Two sequences with the same elements, counted with multiplicity, hold
/// the same elements; if one has no duplicates, neither has the other.
pub proof fn lemma_same_multiset<A>(a: Seq<A>, b: Seq<A>)
    requires
        a.to_multiset() == b.to_multiset(),
        a.no_duplicates(),
    ensures
        b.no_duplicates(),
        forall|x: A| a.contains(x) <==> b.contains(x),
{
    broadcast use vstd::seq_lib::group_to_multiset_ensures;

    a.lemma_multiset_has_no_duplicates();
    b.lemma_multiset_has_no_duplicates_conv();
    a.to_multiset_ensures();
    b.to_multiset_ensures();
    assert forall|x: A| a.contains(x) <==> b.contains(x) by {
        assert(a.contains(x) <==> a.to_multiset().count(x) > 0);
        assert(b.contains(x) <==> b.to_multiset().count(x) > 0);
        assert(a.to_multiset().count(x) == b.to_multiset().count(x));
    }
}

fn id_text_le(a: &TaskId, b: &TaskId) -> (r: bool)
    ensures
        r == lex_le(id_text(a@), id_text(b@)),
{
    let sa = a.to_string();
    let sb = b.to_string();
    str_lex_le(sa.as_str(), sb.as_str())
}

/// Sorts task ids by their text; ids with the same text keep no particular
/// order.
pub fn sort_ids(v: Vec<TaskId>) -> (r: Vec<TaskId>)
    ensures
        ids_of(r@).to_multiset() == ids_of(v@).to_multiset(),
        sorted_by(ids_of(r@), id_le()),
{
    let ghost all = v@;
    let mut rest = v;
    let mut r: Vec<TaskId> = Vec::new();
    let ghost mut done: int = 0;
    proof {
        assert(ids_of(r@) =~= Seq::empty());
        assert(all.take(0) =~= Seq::empty());
    }
    while rest.len() > 0
        invariant
            0 <= done <= all.len(),
            rest@ == all.skip(done),
            ids_of(r@).to_multiset() == ids_of(all.take(done)).to_multiset(),
            sorted_by(ids_of(r@), id_le()),
        decreases rest@.len(),
    {
        let x = rest.remove(0);
        proof {
            assert(x == all[done]);
            assert(rest@ =~= all.skip(done + 1));
        }
        let mut p: usize = 0;
        while p < r.len() && id_text_le(&r[p], &x)
            invariant
                p <= r@.len(),
                forall|q: int| 0 <= q < p ==> lex_le(id_text(r@[q]@), id_text(x@)),
            decreases r@.len() - p,
        {
            p = p + 1;
        }
        let ghost old_r = ids_of(r@);
        r.insert(p, x);
        proof {
            let s = ids_of(r@);
            assert(s =~= old_r.insert(p as int, x@));
            if p < old_r.len() {
                assert(!lex_le(id_text(old_r[p as int]), id_text(x@)));
                lemma_lex_total(id_text(old_r[p as int]), id_text(x@));
            }
            assert forall|q: int| 0 <= q < p implies #[trigger] id_le()(old_r[q], x@) by {
                assert(old_r[q] == r@[q]@);
            }
            lemma_id_le_transitive();
            lemma_insert_sorted(old_r, p as int, x@, id_le());
            assert(ids_of(all.take(done + 1)) =~= ids_of(all.take(done)).push(x@));
            vstd::seq_lib::to_multiset_build(ids_of(all.take(done)), x@);
            done = done + 1;
        }
    }
    proof {
        assert(all.take(done) =~= all);
    }
    r
}

/// Sorts strings lexicographically.
pub fn sort_strings(v: Vec<String>) -> (r: Vec<String>)
    ensures
        views(r@).to_multiset() == views(v@).to_multiset(),
        sorted_by(views(r@), text_le()),
        views(r@) == sorted_texts(views(v@)),
{
    let ghost all = v@;
    let mut rest = v;
    let mut r: Vec<String> = Vec::new();
    let ghost mut done: int = 0;
    proof {
        assert(views(r@) =~= Seq::empty());
        assert(all.take(0) =~= Seq::empty());
    }
    while rest.len() > 0
        invariant
            0 <= done <= all.len(),
            rest@ == all.skip(done),
            views(r@).to_multiset() == views(all.take(done)).to_multiset(),
            sorted_by(views(r@), text_le()),
        decreases rest@.len(),
    {
        let x = rest.remove(0);
        proof {
            assert(x == all[done]);
            assert(rest@ =~= all.skip(done + 1));
        }
        let mut p: usize = 0;
        while p < r.len() && str_lex_le(r[p].as_str(), x.as_str())
            invariant
                p <= r@.len(),
                forall|q: int| 0 <= q < p ==> lex_le(r@[q]@, x@),
            decreases r@.len() - p,
        {
            p = p + 1;
        }
        let ghost old_r = views(r@);
        r.insert(p, x);
        proof {
            let s = views(r@);
            assert(s =~= old_r.insert(p as int, x@));
            if p < old_r.len() {
                assert(!lex_le(old_r[p as int], x@));
                lemma_lex_total(old_r[p as int], x@);
            }
            assert forall|q: int| 0 <= q < p implies #[trigger] text_le()(old_r[q], x@) by {
                assert(old_r[q] == r@[q]@);
            }
            lemma_text_le_transitive();
            lemma_insert_sorted(old_r, p as int, x@, text_le());
            assert(views(all.take(done + 1)) =~= views(all.take(done)).push(x@));
            vstd::seq_lib::to_multiset_build(views(all.take(done)), x@);
            done = done + 1;
        }
    }
    proof {
        assert(all.take(done) =~= all);
        lemma_is_sorted_texts(views(all), views(r@));
    }
    r
}

} // verus!
