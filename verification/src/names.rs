//! The order of the series of a chart: by name, and among equal names by
//! the order in which they were given.

use vstd::prelude::*;

verus! {

/// `a` and `b` agree on their first `k` bytes, and there `a` ends while
/// `b` goes on, or has the lesser byte.
pub open spec fn is_split(a: Seq<u8>, b: Seq<u8>, k: int) -> bool {
    &&& 0 <= k <= a.len()
    &&& k < b.len()
    &&& forall|i: int| 0 <= i < k ==> a[i] == b[i]
    &&& k < a.len() ==> a[k] < b[k]
}

/// `a` comes before `b` byte by byte, as text does in a dictionary: at the
/// first byte where they differ `a` has the lesser, or `a` ends first.
pub open spec fn bytes_lt(a: Seq<u8>, b: Seq<u8>) -> bool {
    exists|k: int| is_split(a, b, k)
}

/// Of three names in a row the first comes before the last.
pub proof fn lemma_bytes_lt_transitive(a: Seq<u8>, b: Seq<u8>, c: Seq<u8>)
    requires
        bytes_lt(a, b),
        bytes_lt(b, c),
    ensures
        bytes_lt(a, c),
{
    let k1: int = choose|k: int| is_split(a, b, k);
    let k2: int = choose|k: int| is_split(b, c, k);
    let k: int = if k1 <= k2 {
        k1
    } else {
        k2
    };
    assert(is_split(a, c, k));
}

/// No name comes before itself, and of two names not both come first.
pub proof fn lemma_bytes_lt_asymmetric(a: Seq<u8>, b: Seq<u8>)
    requires
        bytes_lt(a, b),
    ensures
        !bytes_lt(b, a),
        a != b,
{
    let k1: int = choose|k: int| is_split(a, b, k);
    if bytes_lt(b, a) {
        let k2: int = choose|k: int| is_split(b, a, k);
        if k1 < k2 {
            assert(b[k1] == a[k1]);
        } else if k2 < k1 {
            assert(a[k2] == b[k2]);
        }
    }
    if a == b {
        assert(k1 < a.len());
    }
}

/// The name of the line `i`: the empty name where none is given.
pub open spec fn name_of(names: Seq<Vec<u8>>, i: int) -> Seq<u8> {
    if 0 <= i < names.len() {
        names[i]@
    } else {
        Seq::empty()
    }
}

/// The line `x` stands before the line `y`: its name comes first, or the
/// names are equal and `x` was given first.
pub open spec fn line_before(names: Seq<Vec<u8>>, x: int, y: int) -> bool {
    bytes_lt(name_of(names, x), name_of(names, y)) || (name_of(names, x) == name_of(names, y) && x
        < y)
}

/// Whether the line `v` occurs in `p`.
pub open spec fn occurs(p: Seq<usize>, v: int) -> bool {
    exists|i: int| 0 <= i < p.len() && #[trigger] p[i] == v
}

/// `p` puts the lines `0` to `n - 1` in order: each of them occurs in `p`,
/// and whatever stands earlier in `p` is `line_before` what stands later.
pub open spec fn is_name_order(p: Seq<usize>, names: Seq<Vec<u8>>, n: int) -> bool {
    &&& p.len() == n
    &&& forall|i: int| 0 <= i < n ==> 0 <= #[trigger] p[i] < n
    &&& forall|v: int| 0 <= v < n ==> #[trigger] occurs(p, v)
    &&& forall|i: int, j: int| 0 <= i < j < n ==> line_before(names, p[i] as int, p[j] as int)
}

/// Whether `a` comes before `b` byte by byte.
pub fn name_lt(a: &Vec<u8>, b: &Vec<u8>) -> (r: bool)
    ensures
        r == bytes_lt(a@, b@),
        !r && !bytes_lt(b@, a@) ==> a@ == b@,
{
    let mut i: usize = 0;
    while i < a.len() && i < b.len() && a[i] == b[i]
        invariant
            i <= a.len(),
            i <= b.len(),
            forall|j: int| 0 <= j < i ==> a[j] == b[j],
        decreases a.len() - i,
    {
        i += 1;
    }
    let r: bool = i < b.len() && (i == a.len() || a[i] < b[i]);
    proof {
        if r {
            assert(is_split(a@, b@, i as int));
        } else {
            if bytes_lt(a@, b@) {
                let k: int = choose|k: int| is_split(a@, b@, k);
                if k < i {
                    assert(a[k] == b[k]);
                } else if k > i {
                    assert(a[i as int] == b[i as int]);
                }
            }
            if i < a.len() {
                assert(is_split(b@, a@, i as int));
            } else {
                assert(a@ =~= b@);
            }
        }
    }
    r
}

/// The name of the line `i`, which is `none`, the empty name, where no
/// name is given.
fn line_name<'a>(names: &'a Vec<Vec<u8>>, none: &'a Vec<u8>, i: usize) -> (name: &'a Vec<u8>)
    requires
        none@.len() == 0,
    ensures
        name@ == name_of(names@, i as int),
{
    if i < names.len() {
        &names[i]
    } else {
        assert(none@ =~= Seq::<u8>::empty());
        none
    }
}

/// The order of the lines `0` to `n - 1` by name. Lines of equal names
/// keep the order in which they were given; a line without a name counts
/// as having the empty name.
pub fn name_order(names: &Vec<Vec<u8>>, n: usize) -> (order: Vec<usize>)
    ensures
        is_name_order(order@, names@, n as int),
{
    let none: Vec<u8> = Vec::new();
    let mut order: Vec<usize> = Vec::new();
    let mut k: usize = 0;
    while k < n
        invariant
            k <= n,
            none@.len() == 0,
            is_name_order(order@, names@, k as int),
        decreases n - k,
    {
        let name: &Vec<u8> = line_name(names, &none, k);
        let mut at: usize = 0;
        while at < order.len() && !name_lt(name, line_name(names, &none, order[at]))
            invariant
                at <= order.len(),
                none@.len() == 0,
                k < n,
                name@ == name_of(names@, k as int),
                is_name_order(order@, names@, k as int),
                forall|i: int|
                    0 <= i < at ==> !bytes_lt(name@, name_of(names@, #[trigger] order@[i] as int)),
            decreases order.len() - at,
        {
            at += 1;
        }
        let ghost before: Seq<usize> = order@;
        proof {
            if at < order.len() {
                assert(bytes_lt(name@, name_of(names@, before[at as int] as int)));
            }
        }
        order.insert(at, k);
        proof {
            let after: Seq<usize> = order@;
            assert(after.len() == k + 1);
            assert(after[at as int] == k);
            assert forall|i: int| 0 <= i < at implies after[i] == before[i] by {}
            assert forall|i: int| at < i < after.len() implies after[i] == before[i - 1] by {}
            assert forall|v: int| 0 <= v < k + 1 implies #[trigger] occurs(after, v) by {
                if v == k {
                    assert(after[at as int] == v);
                } else {
                    assert(occurs(before, v));
                    let i: int = choose|i: int| 0 <= i < before.len() && #[trigger] before[i] == v;
                    if i < at {
                        assert(after[i] == v);
                    } else {
                        assert(after[i + 1] == v);
                    }
                }
            }
            assert forall|i: int, j: int| 0 <= i < j < k + 1 implies line_before(
                names@,
                after[i] as int,
                after[j] as int,
            ) by {
                if j < at {
                    assert(line_before(names@, before[i] as int, before[j] as int));
                } else if j == at {
                    let x: int = before[i] as int;
                    assert(!bytes_lt(name@, name_of(names@, x)));
                    lemma_trichotomy(name_of(names@, x), name@);
                } else if i < at {
                    assert(line_before(names@, before[i] as int, before[j - 1] as int));
                } else if i == at {
                    let first: Seq<u8> = name_of(names@, before[at as int] as int);
                    let later: Seq<u8> = name_of(names@, before[j - 1] as int);
                    if j - 1 > at {
                        assert(line_before(names@, before[at as int] as int, before[j - 1] as int));
                        if bytes_lt(first, later) {
                            lemma_bytes_lt_transitive(name@, first, later);
                        }
                    }
                } else {
                    assert(line_before(names@, before[i - 1] as int, before[j - 1] as int));
                }
            }
        }
        k += 1;
    }
    order
}

/// Of two names one comes before the other, or they are equal.
pub proof fn lemma_trichotomy(a: Seq<u8>, b: Seq<u8>)
    ensures
        bytes_lt(a, b) || a == b || bytes_lt(b, a),
{
    lemma_trichotomy_from(a, b, 0);
}

/// `lemma_trichotomy` for names that agree on their first `i` bytes.
proof fn lemma_trichotomy_from(a: Seq<u8>, b: Seq<u8>, i: int)
    requires
        0 <= i <= a.len(),
        i <= b.len(),
        forall|j: int| 0 <= j < i ==> a[j] == b[j],
    ensures
        bytes_lt(a, b) || a == b || bytes_lt(b, a),
    decreases a.len() - i,
{
    if i == a.len() {
        if i == b.len() {
            assert(a =~= b);
        } else {
            assert(is_split(a, b, i));
        }
    } else if i == b.len() {
        assert(is_split(b, a, i));
    } else if a[i] == b[i] {
        lemma_trichotomy_from(a, b, i + 1);
    } else if a[i] < b[i] {
        assert(is_split(a, b, i));
    } else {
        assert(is_split(b, a, i));
    }
}

} // verus!
