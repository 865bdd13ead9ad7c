//! Lexicographic order on character sequences, and sorted lists of distinct
//! strings (the order in which `String`s compare).

use vstd::prelude::*;
use vstd::string::*;

verus! {

/// `a` comes strictly before `b` when comparing them character by character
/// (by code point), a proper prefix coming first. Code point order is the
/// order of the UTF-8 bytes, so this is the order of `String`'s `Ord`.
pub open spec fn chars_lt(a: Seq<char>, b: Seq<char>) -> bool
    decreases a.len(),
{
    if a.len() == 0 {
        b.len() > 0
    } else if b.len() == 0 {
        false
    } else if a[0] != b[0] {
        (a[0] as int) < (b[0] as int)
    } else {
        chars_lt(a.drop_first(), b.drop_first())
    }
}

/// Every element is strictly before every later one.
pub open spec fn strictly_sorted(u: Seq<Seq<char>>) -> bool {
    forall|i: int, j: int| 0 <= i < j < u.len() ==> chars_lt(#[trigger] u[i], #[trigger] u[j])
}

/// `u` lists the distinct elements of `s`, in increasing order.
pub open spec fn is_sorted_set_of(u: Seq<Seq<char>>, s: Seq<Seq<char>>) -> bool {
    &&& strictly_sorted(u)
    &&& forall|x: Seq<char>| u.contains(x) <==> s.contains(x)
}

/// The distinct elements of `s` in increasing order (there is exactly one
/// such list, see `lemma_sorted_set_unique`).
pub open spec fn sorted_set(s: Seq<Seq<char>>) -> Seq<Seq<char>> {
    choose|u: Seq<Seq<char>>| is_sorted_set_of(u, s)
}

pub proof fn lemma_lt_irreflexive(a: Seq<char>)
    ensures
        !chars_lt(a, a),
    decreases a.len(),
{
    if a.len() > 0 {
        lemma_lt_irreflexive(a.drop_first());
    }
}

pub proof fn lemma_lt_asymmetric(a: Seq<char>, b: Seq<char>)
    ensures
        !(chars_lt(a, b) && chars_lt(b, a)),
    decreases a.len(),
{
    if a.len() > 0 && b.len() > 0 && a[0] == b[0] {
        lemma_lt_asymmetric(a.drop_first(), b.drop_first());
    }
}

pub proof fn lemma_lt_transitive(a: Seq<char>, b: Seq<char>, c: Seq<char>)
    requires
        chars_lt(a, b),
        chars_lt(b, c),
    ensures
        chars_lt(a, c),
    decreases a.len(),
{
    if a.len() > 0 && b.len() > 0 && c.len() > 0 && a[0] == b[0] && b[0] == c[0] {
        lemma_lt_transitive(a.drop_first(), b.drop_first(), c.drop_first());
    }
}

pub proof fn lemma_lt_total(a: Seq<char>, b: Seq<char>)
    requires
        a != b,
    ensures
        chars_lt(a, b) || chars_lt(b, a),
    decreases a.len(),
{
    if a.len() > 0 && b.len() > 0 {
        if a[0] == b[0] {
            if a.drop_first() == b.drop_first() {
                assert(a =~= seq![a[0]] + a.drop_first());
                assert(b =~= seq![b[0]] + b.drop_first());
            }
            lemma_lt_total(a.drop_first(), b.drop_first());
        } else {
            assert((a[0] as int) != (b[0] as int));
        }
    } else if a.len() == 0 && b.len() == 0 {
        assert(a =~= b);
    }
}

/// Two strictly sorted lists with the same elements are equal.
pub proof fn lemma_sorted_same_elements(u1: Seq<Seq<char>>, u2: Seq<Seq<char>>)
    requires
        strictly_sorted(u1),
        strictly_sorted(u2),
        forall|x: Seq<char>| u1.contains(x) <==> u2.contains(x),
    ensures
        u1 == u2,
    decreases u1.len(),
{
    if u1.len() == 0 {
        if u2.len() > 0 {
            assert(u2.contains(u2[0]));
        }
        assert(u1 =~= u2);
    } else {
        assert(u1.contains(u1[0]));
        let k = choose|k: int| 0 <= k < u2.len() && u2[k] == u1[0];
        assert(u2.contains(u2[0]));
        let m = choose|m: int| 0 <= m < u1.len() && u1[m] == u2[0];
        if k > 0 && m > 0 {
            assert(chars_lt(u2[0], u2[k]));
            assert(chars_lt(u1[0], u1[m]));
            lemma_lt_asymmetric(u1[0], u2[0]);
        }
        assert(u1[0] == u2[0]);
        let t1 = u1.drop_first();
        let t2 = u2.drop_first();
        assert forall|x: Seq<char>| t1.contains(x) <==> t2.contains(x) by {
            if t1.contains(x) {
                let i = choose|i: int| 0 <= i < t1.len() && t1[i] == x;
                assert(u1[i + 1] == x);
                assert(chars_lt(u1[0], u1[i + 1]));
                lemma_lt_irreflexive(x);
                assert(u2.contains(x));
                let j = choose|j: int| 0 <= j < u2.len() && u2[j] == x;
                assert(j != 0);
                assert(t2[j - 1] == x);
            }
            if t2.contains(x) {
                let i = choose|i: int| 0 <= i < t2.len() && t2[i] == x;
                assert(u2[i + 1] == x);
                assert(chars_lt(u2[0], u2[i + 1]));
                lemma_lt_irreflexive(x);
                assert(u1.contains(x));
                let j = choose|j: int| 0 <= j < u1.len() && u1[j] == x;
                assert(j != 0);
                assert(t1[j - 1] == x);
            }
        }
        lemma_sorted_same_elements(t1, t2);
        assert(u1 =~= seq![u1[0]] + t1);
        assert(u2 =~= seq![u2[0]] + t2);
    }
}

/// Whenever a sorted list of the distinct elements exists, it is `sorted_set`.
pub proof fn lemma_sorted_set_unique(u: Seq<Seq<char>>, s: Seq<Seq<char>>)
    requires
        is_sorted_set_of(u, s),
    ensures
        sorted_set(s) == u,
{
    let w = sorted_set(s);
    assert(is_sorted_set_of(w, s));
    lemma_sorted_same_elements(u, w);
}

/// A common prefix does not change the order.
pub proof fn lemma_lt_prefix(p: Seq<char>, a: Seq<char>, b: Seq<char>)
    ensures
        chars_lt(p + a, p + b) == chars_lt(a, b),
    decreases p.len(),
{
    if p.len() > 0 {
        assert((p + a).drop_first() =~= p.drop_first() + a);
        assert((p + b).drop_first() =~= p.drop_first() + b);
        lemma_lt_prefix(p.drop_first(), a, b);
    } else {
        assert(p + a =~= a);
        assert(p + b =~= b);
    }
}

/// `x` put into the strictly sorted `u` at its place, unless it is there.
pub open spec fn sorted_insert(u: Seq<Seq<char>>, x: Seq<char>) -> Seq<Seq<char>>
    decreases u.len(),
{
    if u.len() == 0 {
        seq![x]
    } else if chars_lt(u.last(), x) {
        u.push(x)
    } else if u.last() == x {
        u
    } else {
        sorted_insert(u.drop_last(), x).push(u.last())
    }
}

pub proof fn lemma_sorted_insert(u: Seq<Seq<char>>, x: Seq<char>)
    requires
        strictly_sorted(u),
    ensures
        strictly_sorted(sorted_insert(u, x)),
        forall|y: Seq<char>| #[trigger] sorted_insert(u, x).contains(y) <==> (u.contains(y) || y == x),
        sorted_insert(u, x).len() > 0,
        u.len() > 0 ==> (sorted_insert(u, x).last() == u.last() || sorted_insert(u, x).last() == x),
    decreases u.len(),
{
    let r = sorted_insert(u, x);
    if u.len() == 0 {
        assert forall|y: Seq<char>| r.contains(y) <==> (u.contains(y) || y == x) by {
            if y == x {
                assert(r[0] == x);
            }
        }
    } else if chars_lt(u.last(), x) {
        assert forall|i: int, j: int| 0 <= i < j < r.len() implies chars_lt(#[trigger] r[i], #[trigger] r[j]) by {
            if j == u.len() && i < u.len() - 1 {
                lemma_lt_transitive(u[i], u.last(), x);
            }
        }
        assert forall|y: Seq<char>| r.contains(y) <==> (u.contains(y) || y == x) by {
            if r.contains(y) {
                let k = choose|k: int| 0 <= k < r.len() && r[k] == y;
                if k < u.len() {
                    assert(u[k] == y);
                }
            }
            if u.contains(y) {
                let k = choose|k: int| 0 <= k < u.len() && u[k] == y;
                assert(r[k] == y);
            }
            if y == x {
                assert(r[u.len() as int] == x);
            }
        }
    } else if u.last() == x {
        assert(u[u.len() - 1] == x);
    } else {
        let d = u.drop_last();
        let l = u.last();
        lemma_lt_total(l, x);
        lemma_sorted_insert(d, x);
        let q = sorted_insert(d, x);
        assert(r == q.push(l));
        assert forall|y: Seq<char>| q.contains(y) implies chars_lt(y, l) by {
            let k = choose|k: int| 0 <= k < q.len() && q[k] == y;
            if y == x {
            } else {
                assert(d.contains(y));
                let m = choose|m: int| 0 <= m < d.len() && d[m] == y;
                assert(chars_lt(u[m], u[u.len() - 1]));
            }
        }
        assert forall|i: int, j: int| 0 <= i < j < r.len() implies chars_lt(#[trigger] r[i], #[trigger] r[j]) by {
            if j == q.len() {
                assert(q.contains(q[i]));
            }
        }
        assert forall|y: Seq<char>| r.contains(y) <==> (u.contains(y) || y == x) by {
            if r.contains(y) {
                let k = choose|k: int| 0 <= k < r.len() && r[k] == y;
                if k < q.len() {
                    assert(q.contains(y));
                    if d.contains(y) {
                        let m = choose|m: int| 0 <= m < d.len() && d[m] == y;
                        assert(u[m] == y);
                    }
                } else {
                    assert(u[u.len() - 1] == y);
                }
            }
            if u.contains(y) {
                let k = choose|k: int| 0 <= k < u.len() && u[k] == y;
                if k < u.len() - 1 {
                    assert(d[k] == y);
                    assert(q.contains(y));
                    let m = choose|m: int| 0 <= m < q.len() && q[m] == y;
                    assert(r[m] == y);
                } else {
                    assert(r[q.len() as int] == y);
                }
            }
            if y == x {
                assert(q.contains(x));
                let m = choose|m: int| 0 <= m < q.len() && q[m] == x;
                assert(r[m] == x);
            }
        }
    }
}

/// Every sequence has a sorted list of its distinct elements.
pub proof fn lemma_sorted_set(s: Seq<Seq<char>>)
    ensures
        is_sorted_set_of(sorted_set(s), s),
{
    let u = sorted_list_of(s);
    lemma_sorted_list_of(s);
    lemma_sorted_set_unique(u, s);
}

/// The distinct elements of `s`, inserted one after the other.
pub open spec fn sorted_list_of(s: Seq<Seq<char>>) -> Seq<Seq<char>>
    decreases s.len(),
{
    if s.len() == 0 {
        Seq::empty()
    } else {
        sorted_insert(sorted_list_of(s.drop_last()), s.last())
    }
}

proof fn lemma_sorted_list_of(s: Seq<Seq<char>>)
    ensures
        is_sorted_set_of(sorted_list_of(s), s),
    decreases s.len(),
{
    if s.len() > 0 {
        lemma_sorted_list_of(s.drop_last());
        lemma_sorted_insert(sorted_list_of(s.drop_last()), s.last());
        assert forall|y: Seq<char>| s.contains(y) <==> (s.drop_last().contains(y) || y == s.last()) by {
            if s.contains(y) {
                let k = choose|k: int| 0 <= k < s.len() && s[k] == y;
                if k < s.len() - 1 {
                    assert(s.drop_last()[k] == y);
                }
            }
            if s.drop_last().contains(y) {
                let k = choose|k: int| 0 <= k < s.drop_last().len() && s.drop_last()[k] == y;
                assert(s[k] == y);
            }
            if y == s.last() {
                assert(s[s.len() - 1] == y);
            }
        }
    }
}

/// The characters of `s`.
pub fn chars_of(s: &str) -> (res: Vec<char>)
    ensures
        res@ == s@,
{
    let n = s.unicode_len();
    let mut res: Vec<char> = Vec::new();
    let mut i: usize = 0;
    while i < n
        invariant
            n == s@.len(),
            i <= n,
            res@ == s@.subrange(0, i as int),
        decreases n - i,
    {
        let c = s.get_char(i);
        res.push(c);
        i = i + 1;
        assert(res@ =~= s@.subrange(0, i as int));
    }
    assert(res@ =~= s@);
    res
}

/// Whether `a` comes strictly before `b`.
pub fn chars_less(a: &Vec<char>, b: &Vec<char>) -> (res: bool)
    ensures
        res == chars_lt(a@, b@),
{
    let mut i: usize = 0;
    assert(a@.skip(0) =~= a@);
    assert(b@.skip(0) =~= b@);
    while i < a.len() && i < b.len() && a[i] == b[i]
        invariant
            i <= a.len(),
            i <= b.len(),
            a@.subrange(0, i as int) == b@.subrange(0, i as int),
            chars_lt(a@, b@) == chars_lt(a@.skip(i as int), b@.skip(i as int)),
        decreases a.len() - i,
    {
        let ghost ai = a@.skip(i as int);
        let ghost bi = b@.skip(i as int);
        assert(ai.drop_first() =~= a@.skip(i + 1));
        assert(bi.drop_first() =~= b@.skip(i + 1));
        i = i + 1;
        assert(a@.subrange(0, i as int) =~= a@.subrange(0, i - 1).push(a@[i - 1]));
        assert(b@.subrange(0, i as int) =~= b@.subrange(0, i - 1).push(b@[i - 1]));
    }
    if i == a.len() {
        i < b.len()
    } else if i == b.len() {
        false
    } else {
        a[i] < b[i]
    }
}


/// The characters of each string.
pub open spec fn strs(v: Seq<String>) -> Seq<Seq<char>> {
    v.map_values(|s: String| s@)
}

/// Inserts `value` into the strictly sorted list `vals` unless it is there
/// already; `keys` holds the characters of each element of `vals`.
fn insert_sorted(vals: &mut Vec<String>, keys: &mut Vec<Vec<char>>, value: &String)
    requires
        old(vals).len() == old(keys).len(),
        forall|i: int| 0 <= i < old(keys).len() ==> (#[trigger] old(keys)[i])@ == old(vals)[i]@,
        strictly_sorted(strs(old(vals)@)),
    ensures
        final(vals).len() == final(keys).len(),
        forall|i: int| 0 <= i < final(keys).len() ==> (#[trigger] final(keys)[i])@ == final(vals)[i]@,
        strictly_sorted(strs(final(vals)@)),
        forall|x: Seq<char>|
            strs(final(vals)@).contains(x) <==> (strs(old(vals)@).contains(x) || x == value@),
{
    let ghost old_vals = strs(vals@);
    let key = chars_of(value.as_str());
    let mut p: usize = 0;
    while p < keys.len() && chars_less(&keys[p], &key)
        invariant
            p <= keys.len(),
            vals.len() == keys.len(),
            forall|i: int| 0 <= i < keys.len() ==> (#[trigger] keys[i])@ == vals[i]@,
            key@ == value@,
            forall|i: int| 0 <= i < p ==> chars_lt(#[trigger] strs(vals@)[i], key@),
        decreases keys.len() - p,
    {
        p = p + 1;
    }
    if p < vals.len() && vals[p] == *value {
        assert(strs(vals@)[p as int] == value@);
        assert forall|x: Seq<char>|
            strs(vals@).contains(x) <==> (strs(vals@).contains(x) || x == value@) by {
            if x == value@ {
                assert(strs(vals@)[p as int] == x);
            }
        }
        return ;
    }
    let ghost before = strs(vals@);
    vals.insert(p, value.clone());
    keys.insert(p, key);
    let ghost after = strs(vals@);
    assert(after =~= before.insert(p as int, value@));
    proof {
        if p < before.len() {
            assert(!chars_lt(before[p as int], value@));
            assert(before[p as int] != value@);
            lemma_lt_total(before[p as int], value@);
        }
    }
    assert forall|i: int, j: int| 0 <= i < j < after.len() implies chars_lt(
        #[trigger] after[i],
        #[trigger] after[j],
    ) by {
        if j < p {
        } else if j == p {
        } else if i < p {
            assert(chars_lt(before[i], value@));
            assert(chars_lt(value@, before[p as int]));
            if j - 1 > p {
                assert(chars_lt(before[p as int], before[j - 1]));
                lemma_lt_transitive(value@, before[p as int], before[j - 1]);
            }
            lemma_lt_transitive(before[i], value@, before[j - 1]);
        } else if i == p {
            if j - 1 > p {
                assert(chars_lt(before[p as int], before[j - 1]));
                lemma_lt_transitive(value@, before[p as int], before[j - 1]);
            }
        } else {
            assert(chars_lt(before[i - 1], before[j - 1]));
        }
    }
    assert forall|x: Seq<char>| after.contains(x) <==> (before.contains(x) || x == value@) by {
        if after.contains(x) {
            let k = choose|k: int| 0 <= k < after.len() && after[k] == x;
            if k < p {
                assert(before[k] == x);
            } else if k > p {
                assert(before[k - 1] == x);
            }
        }
        if before.contains(x) {
            let k = choose|k: int| 0 <= k < before.len() && before[k] == x;
            if k < p {
                assert(after[k] == x);
            } else {
                assert(after[k + 1] == x);
            }
        }
        if x == value@ {
            assert(after[p as int] == x);
        }
    }
}

/// The fields of every row, as character sequences.
pub open spec fn table_of(records: Seq<Vec<String>>) -> Seq<Seq<Seq<char>>> {
    records.map_values(|r: Vec<String>| strs(r@))
}

/// The `c`-th field of every row.
pub open spec fn column(table: Seq<Seq<Seq<char>>>, c: int) -> Seq<Seq<char>> {
    Seq::new(table.len(), |r: int| table[r][c])
}

/// The distinct values of field `c` over all records, in increasing order.
pub fn column_distinct(records: &Vec<Vec<String>>, c: usize) -> (res: Vec<String>)
    requires
        forall|r: int| 0 <= r < records.len() ==> c < (#[trigger] records[r]).len(),
    ensures
        is_sorted_set_of(strs(res@), column(table_of(records@), c as int)),
{
    let mut vals: Vec<String> = Vec::new();
    let mut keys: Vec<Vec<char>> = Vec::new();
    let ghost table = table_of(records@);
    let mut r: usize = 0;
    while r < records.len()
        invariant
            table == table_of(records@),
            forall|i: int| 0 <= i < records.len() ==> c < (#[trigger] records[i]).len(),
            r <= records.len(),
            vals.len() == keys.len(),
            forall|i: int| 0 <= i < keys.len() ==> (#[trigger] keys[i])@ == vals[i]@,
            strictly_sorted(strs(vals@)),
            forall|x: Seq<char>|
                strs(vals@).contains(x) <==> column(table, c as int).take(r as int).contains(x),
        decreases records.len() - r,
    {
        insert_sorted(&mut vals, &mut keys, &records[r][c]);
        proof {
            let col = column(table, c as int);
            assert(table[r as int][c as int] == records[r as int][c as int]@);
            let v = records[r as int][c as int]@;
            assert(col.take(r + 1) =~= col.take(r as int).push(v));
            let pre = col.take(r as int);
            let post = col.take(r + 1);
            assert forall|x: Seq<char>| post.contains(x) <==> (pre.contains(x) || x == v) by {
                if post.contains(x) {
                    let k = choose|k: int| 0 <= k < post.len() && post[k] == x;
                    if k < r {
                        assert(pre[k] == x);
                    }
                }
                if pre.contains(x) {
                    let k = choose|k: int| 0 <= k < pre.len() && pre[k] == x;
                    assert(post[k] == x);
                }
                if x == v {
                    assert(post[r as int] == x);
                }
            }
        }
        r = r + 1;
    }
    proof {
        let col = column(table, c as int);
        assert(col.take(r as int) =~= col);
    }
    vals
}


/// Inserts every string of `src` into the strictly sorted list `vals`.
fn insert_all(vals: &mut Vec<String>, keys: &mut Vec<Vec<char>>, src: &Vec<String>)
    requires
        old(vals).len() == old(keys).len(),
        forall|i: int| 0 <= i < old(keys).len() ==> (#[trigger] old(keys)[i])@ == old(vals)[i]@,
        strictly_sorted(strs(old(vals)@)),
    ensures
        final(vals).len() == final(keys).len(),
        forall|i: int| 0 <= i < final(keys).len() ==> (#[trigger] final(keys)[i])@ == final(vals)[i]@,
        strictly_sorted(strs(final(vals)@)),
        forall|x: Seq<char>|
            #[trigger] strs(final(vals)@).contains(x) <==> (strs(old(vals)@).contains(x) || strs(
                src@,
            ).contains(x)),
{
    let ghost start = strs(vals@);
    let ghost all = strs(src@);
    let mut i: usize = 0;
    while i < src.len()
        invariant
            all == strs(src@),
            i <= src.len(),
            vals.len() == keys.len(),
            forall|k: int| 0 <= k < keys.len() ==> (#[trigger] keys[k])@ == vals[k]@,
            strictly_sorted(strs(vals@)),
            forall|x: Seq<char>|
                strs(vals@).contains(x) <==> (start.contains(x) || all.take(i as int).contains(x)),
        decreases src.len() - i,
    {
        let ghost before = strs(vals@);
        assert(forall|x: Seq<char>| before.contains(x) <==> (start.contains(x) || all.take(i as int).contains(x)));
        insert_sorted(vals, keys, &src[i]);
        proof {
            let v = all[i as int];
            assert(v == src[i as int]@);
            let pre = all.take(i as int);
            let post = all.take(i + 1);
            assert forall|x: Seq<char>| post.contains(x) <==> (pre.contains(x) || x == v) by {
                if post.contains(x) {
                    let k = choose|k: int| 0 <= k < post.len() && post[k] == x;
                    if k < i {
                        assert(pre[k] == x);
                    }
                }
                if pre.contains(x) {
                    let k = choose|k: int| 0 <= k < pre.len() && pre[k] == x;
                    assert(post[k] == x);
                }
                if x == v {
                    assert(post[i as int] == x);
                }
            }
            assert forall|x: Seq<char>|
                strs(vals@).contains(x) <==> (start.contains(x) || post.contains(x)) by {
                assert(strs(vals@).contains(x) <==> (before.contains(x) || x == v));
                assert(before.contains(x) <==> (start.contains(x) || pre.contains(x)));
            }
        }
        i = i + 1;
    }
    assert(all.take(i as int) =~= all);
    assert forall|x: Seq<char>| #[trigger] strs(vals@).contains(x) <==> (start.contains(x) || all.contains(x)) by {
        assert(strs(vals@).contains(x) <==> (start.contains(x) || all.take(i as int).contains(x)));
    }
}

/// The distinct strings of `a` and `b` together, in increasing order.
pub fn sorted_union(a: &Vec<String>, b: &Vec<String>) -> (res: Vec<String>)
    ensures
        is_sorted_set_of(strs(res@), strs(a@) + strs(b@)),
{
    let mut both: Vec<String> = Vec::new();
    let mut i: usize = 0;
    while i < a.len()
        invariant
            i <= a.len(),
            strs(both@) == strs(a@).take(i as int),
        decreases a.len() - i,
    {
        let ghost prev = strs(both@);
        let item = a[i].clone();
        both.push(item);
        assert(strs(both@) =~= prev.push(a[i as int]@));
        i = i + 1;
        assert(strs(both@) =~= strs(a@).take(i as int));
    }
    let mut j: usize = 0;
    while j < b.len()
        invariant
            j <= b.len(),
            strs(both@) == strs(a@) + strs(b@).take(j as int),
        decreases b.len() - j,
    {
        let ghost prev = strs(both@);
        let item = b[j].clone();
        both.push(item);
        assert(strs(both@) =~= prev.push(b[j as int]@));
        j = j + 1;
        assert(strs(both@) =~= strs(a@) + strs(b@).take(j as int));
    }
    assert(strs(both@) =~= strs(a@) + strs(b@));
    let mut vals: Vec<String> = Vec::new();
    let mut keys: Vec<Vec<char>> = Vec::new();
    assert(strs(vals@) =~= Seq::<Seq<char>>::empty());
    insert_all(&mut vals, &mut keys, &both);
    assert(forall|x: Seq<char>| strs(vals@).contains(x) <==> strs(both@).contains(x));
    vals
}

} // verus!
