//! Sets of ports, kept as strictly increasing lists.
use vstd::prelude::*;

verus! {

/// Every element is smaller than the next: ordered, and nothing occurs twice.
pub open spec fn increasing(s: Seq<u16>) -> bool {
    forall|i: int, j: int| 0 <= i < j < s.len() ==> s[i] < s[j]
}

/// Adds a port to a set of ports.
pub fn insert_port(set: &mut Vec<u16>, port: u16)
    requires
        increasing(old(set)@),
    ensures
        increasing(final(set)@),
        final(set)@.to_set() == old(set)@.to_set().insert(port),
{
    let mut i: usize = 0;
    while i < set.len() && set[i] < port
        invariant
            i <= set.len(),
            set@ == old(set)@,
            forall|j: int| 0 <= j < i ==> set@[j] < port,
        decreases set.len() - i,
    {
        i = i + 1;
    }
    if i < set.len() && set[i] == port {
        proof {
            assert(set@.contains(port));
            assert(set@.to_set().insert(port) =~= set@.to_set());
        }
        return;
    }
    let ghost before = set@;
    set.insert(i, port);
    proof {
        let after = set@;
        assert(after == before.insert(i as int, port));
        assert forall|x: u16| after.to_set().contains(x) == before.to_set().insert(port).contains(
            x,
        ) by {
            if after.contains(x) {
                let k = after.index_of(x);
                if k < i {
                    assert(before[k] == x);
                } else if k > i {
                    assert(before[k - 1] == x);
                }
            }
            if before.contains(x) {
                let k = before.index_of(x);
                if k < i {
                    assert(after[k] == x);
                } else {
                    assert(after[k + 1] == x);
                }
            }
            if x == port {
                assert(after[i as int] == x);
            }
        }
        assert(after.to_set() =~= before.to_set().insert(port));
    }
}

/// Two strictly increasing lists of the same ports are the same list.
pub proof fn lemma_increasing_unique(a: Seq<u16>, b: Seq<u16>)
    requires
        increasing(a),
        increasing(b),
        a.to_set() == b.to_set(),
    ensures
        a == b,
    decreases a.len(),
{
    if a.len() == 0 {
        if b.len() > 0 {
            assert(b.to_set().contains(b[0]));
            assert(a.contains(b[0]));
        }
    } else {
        assert(a.to_set().contains(a.last()));
        assert(b.contains(a.last()));
        assert(b.to_set().contains(b.last()));
        assert(a.contains(b.last()));
        assert(a.last() == b.last());
        let x = a.drop_last();
        let y = b.drop_last();
        assert forall|p: u16| x.to_set().contains(p) == y.to_set().contains(p) by {
            if x.contains(p) {
                let k = x.index_of(p);
                assert(a[k] == p);
                assert(a.to_set().contains(p));
                assert(b.contains(p));
                let m = b.index_of(p);
                assert(m < b.len() - 1);
                assert(y[m] == p);
            }
            if y.contains(p) {
                let k = y.index_of(p);
                assert(b[k] == p);
                assert(b.to_set().contains(p));
                assert(a.contains(p));
                let m = a.index_of(p);
                assert(m < a.len() - 1);
                assert(x[m] == p);
            }
        }
        assert(x.to_set() =~= y.to_set());
        lemma_increasing_unique(x, y);
        assert(a == x.push(a.last()));
        assert(b == y.push(b.last()));
    }
}

/// Whether two sets of ports are equal.
pub fn same_ports(a: &Vec<u16>, b: &Vec<u16>) -> (r: bool)
    requires
        increasing(a@),
        increasing(b@),
    ensures
        r == (a@.to_set() == b@.to_set()),
{
    proof {
        if a@.to_set() == b@.to_set() {
            lemma_increasing_unique(a@, b@);
        }
    }
    if a.len() != b.len() {
        return false;
    }
    let mut i: usize = 0;
    while i < a.len()
        invariant
            i <= a.len(),
            a.len() == b.len(),
            a@.to_set() == b@.to_set() ==> a@ == b@,
            forall|j: int| 0 <= j < i ==> a@[j] == b@[j],
        decreases a.len() - i,
    {
        if a[i] != b[i] {
            return false;
        }
        i = i + 1;
    }
    assert(a@ == b@);
    true
}

} // verus!
