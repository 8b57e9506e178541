use vstd::prelude::*;

verus! {

/// A record placed at a point in time, counted in the units of `Decimal`.
pub trait Timed: Sized + Copy {
    spec fn time_spec(&self) -> int;

    fn time(&self) -> (r: i64)
        ensures
            r as int == self.time_spec(),
    ;
}

/// Where a stable insertion puts a record at time `t`: before the first
/// record that is later than `t`.
pub open spec fn insert_pos<T: Timed>(s: Seq<T>, t: int) -> int
    decreases s.len(),
{
    if s.len() == 0 {
        0
    } else if s[0].time_spec() > t {
        0
    } else {
        1 + insert_pos(s.drop_first(), t)
    }
}

/// `s` in ascending order of time; records at the same time keep their order.
pub open spec fn sorted_by_time<T: Timed>(s: Seq<T>) -> Seq<T>
    decreases s.len(),
{
    if s.len() == 0 {
        s
    } else {
        let r = sorted_by_time(s.drop_last());
        r.insert(insert_pos(r, s.last().time_spec()), s.last())
    }
}

pub open spec fn is_time_ascending<T: Timed>(s: Seq<T>) -> bool {
    forall|i: int, j: int| 0 <= i < j < s.len() ==> s[i].time_spec() <= s[j].time_spec()
}

proof fn lemma_insert_pos<T: Timed>(s: Seq<T>, t: int)
    ensures
        0 <= insert_pos(s, t) <= s.len(),
        forall|j: int| 0 <= j < insert_pos(s, t) ==> s[j].time_spec() <= t,
        insert_pos(s, t) < s.len() ==> s[insert_pos(s, t)].time_spec() > t,
    decreases s.len(),
{
    if s.len() > 0 && s[0].time_spec() <= t {
        lemma_insert_pos(s.drop_first(), t);
        assert forall|j: int| 0 <= j < insert_pos(s, t) implies s[j].time_spec() <= t by {
            if j > 0 {
                assert(s[j] == s.drop_first()[j - 1]);
            }
        }
    }
}

/// The sorted records are in ascending order of time and are the same
/// records, as many times each.
pub proof fn lemma_sorted_by_time<T: Timed>(s: Seq<T>)
    ensures
        is_time_ascending(sorted_by_time(s)),
        sorted_by_time(s).to_multiset() == s.to_multiset(),
        sorted_by_time(s).len() == s.len(),
    decreases s.len(),
{
    if s.len() > 0 {
        let r = sorted_by_time(s.drop_last());
        lemma_sorted_by_time(s.drop_last());
        let x = s.last();
        let p = insert_pos(r, x.time_spec());
        lemma_insert_pos(r, x.time_spec());
        let q = r.insert(p, x);
        assert forall|i: int, j: int| 0 <= i < j < q.len() implies q[i].time_spec() <= q[j].time_spec() by {
            if j < p {
            } else if j == p {
            } else if i < p {
                assert(q[j] == r[j - 1]);
                if p < r.len() {
                    assert(r[i].time_spec() <= r[p].time_spec());
                }
            } else if i == p {
                assert(q[j] == r[j - 1]);
                assert(r[p].time_spec() <= r[j - 1].time_spec());
            } else {
                assert(q[i] == r[i - 1] && q[j] == r[j - 1]);
            }
        }
        r.to_multiset_ensures();
        q.to_multiset_ensures();
        s.to_multiset_ensures();
        s.drop_last().to_multiset_ensures();
        assert(s =~= s.drop_last().push(x));
        vstd::seq_lib::lemma_multiset_commutative(r.subrange(0, p), r.subrange(p, r.len() as int));
        assert(r =~= r.subrange(0, p) + r.subrange(p, r.len() as int));
        assert(q =~= r.subrange(0, p).push(x) + r.subrange(p, r.len() as int));
        vstd::seq_lib::lemma_multiset_commutative(r.subrange(0, p).push(x), r.subrange(p, r.len() as int));
        r.subrange(0, p).to_multiset_ensures();
    }
}

/// Sorts by time, keeping the order of records at the same time.
pub fn sort_by_time<T: Timed>(v: &Vec<T>) -> (r: Vec<T>)
    ensures
        r@ == sorted_by_time(v@),
{
    let mut r: Vec<T> = Vec::new();
    let mut i: usize = 0;
    while i < v.len()
        invariant
            i <= v.len(),
            r@ == sorted_by_time(v@.subrange(0, i as int)),
        decreases v.len() - i,
    {
        let x = v[i];
        let t = x.time();
        let mut p: usize = 0;
        assert(r@.subrange(0, r@.len() as int) =~= r@);
        while p < r.len() && r[p].time() <= t
            invariant
                p <= r.len(),
                insert_pos(r@, t as int) == p + insert_pos(r@.subrange(p as int, r@.len() as int), t as int),
            decreases r.len() - p,
        {
            proof {
                let rest = r@.subrange(p as int, r@.len() as int);
                assert(rest.drop_first() =~= r@.subrange(p + 1, r@.len() as int));
            }
            p = p + 1;
        }
        proof {
            let rest = r@.subrange(p as int, r@.len() as int);
            if p < r.len() {
                assert(rest[0] == r@[p as int]);
            }
            assert(insert_pos(rest, t as int) == 0);
            let s = v@.subrange(0, i as int + 1);
            assert(s.drop_last() =~= v@.subrange(0, i as int));
            assert(s.last() == x);
        }
        r.insert(p, x);
        i = i + 1;
    }
    assert(v@.subrange(0, v.len() as int) =~= v@);
    r
}

} // verus!
