//! The summaries of a validated package: per-file sizes, counts by folder and
//! extension, the largest files, planned compressed copies and conflicts.
use vstd::prelude::*;
use crate::config::CompressedFormat;
use crate::text::{chars_of, chars_starts_with, concat2, holds, starts_with, str_eq, string_of};

verus! {

/// One file of a package.
#[derive(Debug)]
pub struct FileSummary {
    pub path: String,
    pub size: u64,
    pub compressed_size: u64,
}

impl View for FileSummary {
    type V = (Seq<char>, u64, u64);

    open spec fn view(&self) -> (Seq<char>, u64, u64) {
        (self.path@, self.size, self.compressed_size)
    }
}

impl FileSummary {
    pub fn copy(&self) -> (r: FileSummary)
        ensures
            r@ == self@,
    {
        FileSummary { path: self.path.clone(), size: self.size, compressed_size: self.compressed_size }
    }
}

/// How many values share one name.
#[derive(Debug)]
pub struct CountItem {
    pub name: String,
    pub count: usize,
}

impl View for CountItem {
    type V = (Seq<char>, nat);

    open spec fn view(&self) -> (Seq<char>, nat) {
        (self.name@, self.count as nat)
    }
}

// ---------------------------------------------------------------------------
// Ordering of strings
// ---------------------------------------------------------------------------

/// The order of `String`: lexicographic by character (code point order, which is
/// also the byte order of their UTF-8 encodings).
pub open spec fn lex_lt(a: Seq<char>, b: Seq<char>) -> bool
    decreases a.len(),
{
    if a.len() == 0 {
        b.len() > 0
    } else if b.len() == 0 {
        false
    } else if a[0] != b[0] {
        a[0] < b[0]
    } else {
        lex_lt(a.drop_first(), b.drop_first())
    }
}

pub proof fn lemma_lex_irreflexive(a: Seq<char>)
    ensures
        !lex_lt(a, a),
    decreases a.len(),
{
    if a.len() > 0 {
        lemma_lex_irreflexive(a.drop_first());
    }
}

pub proof fn lemma_lex_total(a: Seq<char>, b: Seq<char>)
    ensures
        a == b || lex_lt(a, b) || lex_lt(b, a),
    decreases a.len(),
{
    if a.len() > 0 && b.len() > 0 && a[0] == b[0] {
        lemma_lex_total(a.drop_first(), b.drop_first());
        if a.drop_first() == b.drop_first() {
            assert(a =~= seq![a[0]] + a.drop_first());
            assert(b =~= seq![b[0]] + b.drop_first());
        }
    } else if a.len() == 0 && b.len() == 0 {
        assert(a =~= b);
    } else if a.len() > 0 && b.len() > 0 {
        assert(a[0] < b[0] || b[0] < a[0]);
    }
}

pub proof fn lemma_lex_asym(a: Seq<char>, b: Seq<char>)
    ensures
        !(lex_lt(a, b) && lex_lt(b, a)),
    decreases a.len(),
{
    if a.len() > 0 && b.len() > 0 && a[0] == b[0] {
        lemma_lex_asym(a.drop_first(), b.drop_first());
    }
}

pub proof fn lemma_lex_trans(a: Seq<char>, b: Seq<char>, c: Seq<char>)
    requires
        lex_lt(a, b),
        lex_lt(b, c),
    ensures
        lex_lt(a, c),
    decreases a.len(),
{
    if a.len() > 0 && b.len() > 0 && c.len() > 0 && a[0] == b[0] && b[0] == c[0] {
        lemma_lex_trans(a.drop_first(), b.drop_first(), c.drop_first());
    }
}

pub fn lex_less(a: &[char], b: &[char]) -> (r: bool)
    ensures
        r == lex_lt(a@, b@),
{
    let mut i: usize = 0;
    assert(a@.skip(0) =~= a@);
    assert(b@.skip(0) =~= b@);
    while i < a.len() && i < b.len() && a[i] == b[i]
        invariant
            0 <= i <= a.len(),
            i <= b.len(),
            lex_lt(a@.skip(i as int), b@.skip(i as int)) == lex_lt(a@, b@),
        decreases a.len() - i,
    {
        assert(a@.skip(i as int).drop_first() =~= a@.skip(i + 1));
        assert(b@.skip(i as int).drop_first() =~= b@.skip(i + 1));
        assert(a@.skip(i as int)[0] == a@[i as int]);
        assert(b@.skip(i as int)[0] == b@[i as int]);
        i = i + 1;
    }
    proof {
        if i < a.len() {
            assert(a@.skip(i as int)[0] == a@[i as int]);
        }
        if i < b.len() {
            assert(b@.skip(i as int)[0] == b@[i as int]);
        }
    }
    if i == a.len() {
        i < b.len()
    } else if i == b.len() {
        false
    } else {
        a[i] < b[i]
    }
}

// ---------------------------------------------------------------------------
// Counting by name
// ---------------------------------------------------------------------------

/// How often `x` occurs among the first `n` values.
pub open spec fn count_of(values: Seq<Seq<char>>, x: Seq<char>, n: int) -> nat
    decreases n,
{
    if n <= 0 {
        0
    } else {
        count_of(values, x, n - 1) + if values[n - 1] == x {
            1nat
        } else {
            0nat
        }
    }
}

/// Whether `items` lists each distinct value once, in string order, with how often it occurs.
pub open spec fn is_count_table(items: Seq<(Seq<char>, nat)>, values: Seq<Seq<char>>) -> bool {
    &&& forall|i: int, j: int| 0 <= i < j < items.len() ==> lex_lt(items[i].0, items[j].0)
    &&& forall|i: int|
        0 <= i < items.len() ==> holds(values, (#[trigger] items[i]).0) && items[i].1 == count_of(
            values,
            items[i].0,
            values.len() as int,
        )
    &&& forall|k: int| 0 <= k < values.len() ==> holds(items.map_values(|p: (Seq<char>, nat)| p.0), #[trigger] values[k])
}

proof fn lemma_count_bound(values: Seq<Seq<char>>, x: Seq<char>, n: int)
    requires
        0 <= n <= values.len(),
    ensures
        count_of(values, x, n) <= n,
    decreases n,
{
    if n > 0 {
        lemma_count_bound(values, x, n - 1);
    }
}

proof fn lemma_count_prefix(values: Seq<Seq<char>>, x: Seq<char>, n: int)
    requires
        0 <= n <= values.len(),
    ensures
        count_of(values.take(n), x, n) == count_of(values, x, n),
    decreases n,
{
    if n > 0 {
        lemma_count_prefix(values, x, n - 1);
        lemma_count_same(values.take(n), values.take(n - 1), x, n - 1);
    }
}

proof fn lemma_count_same(a: Seq<Seq<char>>, b: Seq<Seq<char>>, x: Seq<char>, n: int)
    requires
        0 <= n <= a.len(),
        n <= b.len(),
        forall|i: int| 0 <= i < n ==> a[i] == b[i],
    ensures
        count_of(a, x, n) == count_of(b, x, n),
    decreases n,
{
    if n > 0 {
        lemma_count_same(a, b, x, n - 1);
    }
}

/// Each distinct string of `values` with how often it occurs, in string order.
pub fn count_by(values: &Vec<String>) -> (r: Vec<CountItem>)
    ensures
        is_count_table(r@.map_values(|c: CountItem| c@), values@.map_values(|s: String| s@)),
{
    let ghost vs = values@.map_values(|s: String| s@);
    let mut items: Vec<CountItem> = Vec::new();
    let mut k: usize = 0;
    while k < values.len()
        invariant
            0 <= k <= values.len(),
            vs == values@.map_values(|s: String| s@),
            is_count_table(items@.map_values(|c: CountItem| c@), vs.take(k as int)),
        decreases values.len() - k,
    {
        let ghost it = items@.map_values(|c: CountItem| c@);
        let ghost itn = it.map_values(|p: (Seq<char>, nat)| p.0);
        let ghost pre = vs.take(k as int);
        let ghost post = vs.take(k + 1);
        assert(post.drop_last() =~= pre);
        assert(post.last() == vs[k as int]);
        let v = chars_of(values[k].as_str());
        assert(v@ == vs[k as int]);
        let mut p: usize = 0;
        while p < items.len() && lex_less(chars_of(items[p].name.as_str()).as_slice(), v.as_slice())
            invariant
                0 <= p <= items.len(),
                it == items@.map_values(|c: CountItem| c@),
                forall|q: int| 0 <= q < p ==> lex_lt(it[q].0, v@),
            decreases items.len() - p,
        {
            p = p + 1;
        }
        proof {
            lemma_count_bound(vs, v@, k as int);
            lemma_count_prefix(vs, v@, k as int);
            lemma_count_prefix(vs, v@, (k + 1) as int);
            assert forall|x: Seq<char>| x != v@ implies count_of(post, x, post.len() as int) == count_of(pre, x, pre.len() as int) by {
                lemma_count_same(post, pre, x, k as int);
            }
            lemma_count_same(post, pre, v@, k as int);
            assert(count_of(post, v@, k + 1) == count_of(pre, v@, k as int) + 1);
        }
        if p < items.len() && str_eq(items[p].name.as_str(), values[k].as_str()) {
            let c = items[p].count;
            proof {
                assert(it[p as int].1 == count_of(pre, v@, k as int));
                lemma_count_prefix(vs, v@, k as int);
            }
            let name = items[p].name.clone();
            items.set(p, CountItem { name, count: c + 1 });
            let ghost it2 = items@.map_values(|c: CountItem| c@);
            let ghost it2n = it2.map_values(|p: (Seq<char>, nat)| p.0);
            assert(it2 =~= it.update(p as int, (v@, (c + 1) as nat)));
            assert forall|i: int| 0 <= i < it2.len() implies holds(post, (#[trigger] it2[i]).0) && it2[i].1 == count_of(post, it2[i].0, post.len() as int) by {
                assert(holds(pre, it[i].0));
                let w = choose|w: int| 0 <= w < pre.len() && pre[w] == it[i].0;
                assert(post[w] == pre[w]);
                if i != p {
                    assert(it2[i] == it[i]);
                    lemma_lex_irreflexive(v@);
                    if it[i].0 == v@ {
                        if i < p {
                            assert(lex_lt(it[i].0, v@));
                        } else {
                            assert(lex_lt(it[p as int].0, it[i].0));
                        }
                    }
                }
            }
            assert forall|q: int| 0 <= q < post.len() implies holds(it2n, #[trigger] post[q]) by {
                if q < k {
                    assert(post[q] == pre[q]);
                    let w = choose|w: int| 0 <= w < it.len() && itn[w] == pre[q];
                    assert(it2n[w] == itn[w]);
                } else {
                    assert(it2n[p as int] == v@);
                }
            }
        } else {
            proof {
                if p < items.len() {
                    lemma_lex_total(it[p as int].0, v@);
                }
                assert forall|i: int| 0 <= i < it.len() implies it[i].0 != v@ by {
                    if i < p {
                        lemma_lex_irreflexive(v@);
                    } else if i > p {
                        lemma_lex_trans(v@, it[p as int].0, it[i].0);
                        lemma_lex_irreflexive(v@);
                    }
                }
                assert(count_of(pre, v@, k as int) == 0) by {
                    if count_of(pre, v@, k as int) != 0 {
                        lemma_count_witness(pre, v@, k as int);
                        let w = choose|w: int| 0 <= w < k && pre[w] == v@;
                        let z = choose|z: int| 0 <= z < it.len() && itn[z] == pre[w];
                        assert(it[z].0 == v@);
                    }
                }
            }
            let name = string_of(v.as_slice());
            items.insert(p, CountItem { name, count: 1 });
            let ghost it2 = items@.map_values(|c: CountItem| c@);
            let ghost it2n = it2.map_values(|p: (Seq<char>, nat)| p.0);
            assert(it2 =~= it.insert(p as int, (v@, 1nat)));
            assert forall|i: int, j: int| 0 <= i < j < it2.len() implies lex_lt(it2[i].0, it2[j].0) by {
                if j == p {
                    assert(it2[i] == it[i]);
                } else if i == p {
                    assert(it2[j] == it[j - 1]);
                    if j - 1 > p {
                        lemma_lex_trans(v@, it[p as int].0, it[j - 1].0);
                    } else {
                        lemma_lex_total(it[p as int].0, v@);
                        lemma_lex_asym(it[p as int].0, v@);
                    }
                } else if j < p {
                } else if i < p {
                    assert(it2[j] == it[j - 1]);
                    assert(it2[i] == it[i]);
                } else {
                    assert(it2[j] == it[j - 1]);
                    assert(it2[i] == it[i - 1]);
                }
            }
            assert forall|i: int| 0 <= i < it2.len() implies holds(post, (#[trigger] it2[i]).0) && it2[i].1 == count_of(post, it2[i].0, post.len() as int) by {
                if i == p {
                    assert(post[k as int] == v@);
                } else {
                    let o = if i < p { i } else { i - 1 };
                    assert(it2[i] == it[o]);
                    assert(holds(pre, it[o].0));
                    let w = choose|w: int| 0 <= w < pre.len() && pre[w] == it[o].0;
                    assert(post[w] == pre[w]);
                }
            }
            assert forall|q: int| 0 <= q < post.len() implies holds(it2n, #[trigger] post[q]) by {
                if q < k {
                    assert(post[q] == pre[q]);
                    let w = choose|w: int| 0 <= w < it.len() && itn[w] == pre[q];
                    let w2 = if w < p { w } else { w + 1 };
                    assert(it2n[w2] == itn[w]);
                } else {
                    assert(it2n[p as int] == v@);
                }
            }
        }
        k = k + 1;
    }
    assert(vs.take(values.len() as int) =~= vs);
    items
}

proof fn lemma_count_witness(values: Seq<Seq<char>>, x: Seq<char>, n: int)
    requires
        0 <= n <= values.len(),
        count_of(values, x, n) > 0,
    ensures
        exists|w: int| 0 <= w < n && values[w] == x,
    decreases n,
{
    if n > 0 && values[n - 1] != x {
        lemma_count_witness(values, x, n - 1);
    }
}

// ---------------------------------------------------------------------------
// Largest files
// ---------------------------------------------------------------------------

/// Places `x` after every element at least as large and before the first smaller one.
pub open spec fn insert_desc(s: Seq<(Seq<char>, u64, u64)>, x: (Seq<char>, u64, u64)) -> Seq<(Seq<char>, u64, u64)>
    decreases s.len(),
{
    if s.len() == 0 {
        seq![x]
    } else if s[0].1 < x.1 {
        seq![x] + s
    } else {
        seq![s[0]] + insert_desc(s.drop_first(), x)
    }
}

/// The files ordered by size, largest first, keeping the order of equal sizes (a stable sort).
pub open spec fn sort_desc(s: Seq<(Seq<char>, u64, u64)>) -> Seq<(Seq<char>, u64, u64)>
    decreases s.len(),
{
    if s.len() == 0 {
        s
    } else {
        insert_desc(sort_desc(s.drop_last()), s.last())
    }
}

/// The five largest files, largest first; equal sizes keep the package order.
pub open spec fn largest_five(s: Seq<(Seq<char>, u64, u64)>) -> Seq<(Seq<char>, u64, u64)> {
    let sorted = sort_desc(s);
    if sorted.len() > 5 {
        sorted.take(5)
    } else {
        sorted
    }
}

proof fn lemma_insert_desc_at(s: Seq<(Seq<char>, u64, u64)>, x: (Seq<char>, u64, u64), p: int)
    requires
        0 <= p <= s.len(),
        forall|q: int| 0 <= q < p ==> s[q].1 >= x.1,
        p < s.len() ==> s[p].1 < x.1,
    ensures
        insert_desc(s, x) == s.take(p) + seq![x] + s.skip(p),
    decreases s.len(),
{
    if s.len() == 0 {
        assert(s.take(p) + seq![x] + s.skip(p) =~= seq![x]);
    } else if p == 0 {
        assert(s.take(0) + seq![x] + s.skip(0) =~= seq![x] + s);
    } else {
        let t = s.drop_first();
        assert forall|q: int| 0 <= q < p - 1 implies t[q].1 >= x.1 by {
            assert(t[q] == s[q + 1]);
        }
        if p - 1 < t.len() {
            assert(t[p - 1] == s[p]);
        }
        lemma_insert_desc_at(t, x, p - 1);
        assert(seq![s[0]] + (t.take(p - 1) + seq![x] + t.skip(p - 1)) =~= s.take(p) + seq![x] + s.skip(p));
    }
}

proof fn lemma_insert_len(s: Seq<(Seq<char>, u64, u64)>, x: (Seq<char>, u64, u64))
    ensures
        insert_desc(s, x).len() == s.len() + 1,
    decreases s.len(),
{
    if s.len() > 0 && s[0].1 >= x.1 {
        lemma_insert_len(s.drop_first(), x);
    }
}

proof fn lemma_insert_sorted(s: Seq<(Seq<char>, u64, u64)>, x: (Seq<char>, u64, u64))
    requires
        forall|i: int, j: int| 0 <= i < j < s.len() ==> s[i].1 >= s[j].1,
    ensures
        forall|i: int, j: int| 0 <= i < j < insert_desc(s, x).len() ==> insert_desc(s, x)[i].1 >= insert_desc(s, x)[j].1,
    decreases s.len(),
{
    if s.len() > 0 && s[0].1 >= x.1 {
        let t = s.drop_first();
        assert forall|i: int, j: int| 0 <= i < j < t.len() implies t[i].1 >= t[j].1 by {
            assert(t[i] == s[i + 1] && t[j] == s[j + 1]);
        }
        lemma_insert_sorted(t, x);
        lemma_insert_contents(t, x);
        let r = insert_desc(s, x);
        assert forall|i: int, j: int| 0 <= i < j < r.len() implies r[i].1 >= r[j].1 by {
            if i == 0 {
                assert(r[j] == insert_desc(t, x)[j - 1]);
                let e = insert_desc(t, x)[j - 1];
                if e != x {
                    let w = choose|w: int| 0 <= w < t.len() && t[w] == e;
                    assert(s[w + 1] == e);
                }
            } else {
                assert(r[i] == insert_desc(t, x)[i - 1]);
                assert(r[j] == insert_desc(t, x)[j - 1]);
            }
        }
    }
}

proof fn lemma_insert_contents(s: Seq<(Seq<char>, u64, u64)>, x: (Seq<char>, u64, u64))
    ensures
        forall|i: int| 0 <= i < insert_desc(s, x).len() ==> #[trigger] insert_desc(s, x)[i] == x || exists|w: int| 0 <= w < s.len() && s[w] == insert_desc(s, x)[i],
        insert_desc(s, x).len() == s.len() + 1,
    decreases s.len(),
{
    lemma_insert_len(s, x);
    if s.len() > 0 && s[0].1 >= x.1 {
        let t = s.drop_first();
        lemma_insert_contents(t, x);
        let r = insert_desc(s, x);
        assert forall|i: int| 0 <= i < r.len() implies #[trigger] r[i] == x || exists|w: int| 0 <= w < s.len() && s[w] == r[i] by {
            if i == 0 {
                assert(s[0] == r[0]);
            } else {
                assert(r[i] == insert_desc(t, x)[i - 1]);
                if r[i] != x {
                    let w = choose|w: int| 0 <= w < t.len() && t[w] == insert_desc(t, x)[i - 1];
                    assert(s[w + 1] == r[i]);
                }
            }
        }
    } else if s.len() > 0 {
        let r = insert_desc(s, x);
        assert forall|i: int| 0 <= i < r.len() implies #[trigger] r[i] == x || exists|w: int| 0 <= w < s.len() && s[w] == r[i] by {
            if i > 0 {
                assert(r[i] == s[i - 1]);
            }
        }
    }
}

proof fn lemma_sort_sorted(s: Seq<(Seq<char>, u64, u64)>)
    ensures
        forall|i: int, j: int| 0 <= i < j < sort_desc(s).len() ==> sort_desc(s)[i].1 >= sort_desc(s)[j].1,
        sort_desc(s).len() == s.len(),
    decreases s.len(),
{
    if s.len() > 0 {
        lemma_sort_sorted(s.drop_last());
        lemma_insert_sorted(sort_desc(s.drop_last()), s.last());
        lemma_insert_len(sort_desc(s.drop_last()), s.last());
    }
}

proof fn lemma_insert_multiset(s: Seq<(Seq<char>, u64, u64)>, x: (Seq<char>, u64, u64))
    ensures
        insert_desc(s, x).to_multiset() =~= s.to_multiset().insert(x),
    decreases s.len(),
{
    broadcast use vstd::seq_lib::group_to_multiset_ensures, vstd::multiset::group_multiset_axioms;
    if s.len() == 0 {
        assert(seq![x] =~= Seq::<(Seq<char>, u64, u64)>::empty().push(x));
    } else {
        let first = seq![s[0]];
        assert(first =~= Seq::<(Seq<char>, u64, u64)>::empty().push(s[0]));
        assert(s =~= first + s.drop_first());
        vstd::seq_lib::lemma_multiset_commutative(first, s.drop_first());
        if s[0].1 < x.1 {
            assert(seq![x] =~= Seq::<(Seq<char>, u64, u64)>::empty().push(x));
            vstd::seq_lib::lemma_multiset_commutative(seq![x], s);
        } else {
            lemma_insert_multiset(s.drop_first(), x);
            vstd::seq_lib::lemma_multiset_commutative(first, insert_desc(s.drop_first(), x));
        }
    }
}

proof fn lemma_sort_multiset(s: Seq<(Seq<char>, u64, u64)>)
    ensures
        sort_desc(s).to_multiset() =~= s.to_multiset(),
    decreases s.len(),
{
    broadcast use vstd::seq_lib::group_to_multiset_ensures;
    if s.len() > 0 {
        lemma_sort_multiset(s.drop_last());
        lemma_insert_multiset(sort_desc(s.drop_last()), s.last());
        assert(s.drop_last().push(s.last()) =~= s);
    }
}

/// The largest files are the largest of the whole package: there are five of
/// them, or all the files when there are fewer; they are files of the package
/// (each taken no more often than it occurs), largest first; and every file
/// of the package that is larger than the smallest one listed is listed.
pub proof fn lemma_largest_five(s: Seq<(Seq<char>, u64, u64)>)
    ensures
        largest_five(s).len() == if s.len() < 5 { s.len() } else { 5 },
        largest_five(s).to_multiset().subset_of(s.to_multiset()),
        forall|i: int, j: int|
            0 <= i < j < largest_five(s).len() ==> largest_five(s)[i].1 >= largest_five(s)[j].1,
        forall|i: int|
            0 <= i < s.len() && (largest_five(s).len() < 5 || s[i].1 > largest_five(s)[largest_five(s).len() - 1].1)
                ==> largest_five(s).contains(#[trigger] s[i]),
{
    broadcast use vstd::seq_lib::group_to_multiset_ensures, vstd::multiset::group_multiset_axioms;
    let sorted = sort_desc(s);
    let r = largest_five(s);
    lemma_sort_sorted(s);
    lemma_sort_multiset(s);
    if sorted.len() > 5 {
        assert(sorted =~= sorted.take(5) + sorted.skip(5));
        vstd::seq_lib::lemma_multiset_commutative(sorted.take(5), sorted.skip(5));
    }
    assert forall|i: int|
        0 <= i < s.len() && (r.len() < 5 || s[i].1 > r[r.len() - 1].1) implies r.contains(#[trigger] s[i]) by {
        assert(s.to_multiset().count(s[i]) > 0);
        assert(sorted.contains(s[i]));
        let p = choose|p: int| 0 <= p < sorted.len() && sorted[p] == s[i];
        if p >= 5 {
            assert(sorted[4].1 >= sorted[p].1);
            assert(r[4] == sorted[4]);
        } else {
            assert(r[p] == sorted[p]);
        }
    }
}

/// The largest files of a package, at most five, largest first; equal sizes keep package order.
pub fn largest_files(files: &Vec<FileSummary>) -> (r: Vec<FileSummary>)
    ensures
        r@.map_values(|f: FileSummary| f@) == largest_five(files@.map_values(|f: FileSummary| f@)),
{
    let ghost fs = files@.map_values(|f: FileSummary| f@);
    let mut sorted: Vec<FileSummary> = Vec::new();
    let mut k: usize = 0;
    while k < files.len()
        invariant
            0 <= k <= files.len(),
            fs == files@.map_values(|f: FileSummary| f@),
            sorted@.map_values(|f: FileSummary| f@) == sort_desc(fs.take(k as int)),
        decreases files.len() - k,
    {
        let ghost sv = sorted@.map_values(|f: FileSummary| f@);
        proof {
            lemma_sort_sorted(fs.take(k as int));
        }
        let x = files[k].copy();
        let mut p: usize = 0;
        while p < sorted.len() && sorted[p].size >= x.size
            invariant
                0 <= p <= sorted.len(),
                sv == sorted@.map_values(|f: FileSummary| f@),
                forall|q: int| 0 <= q < p ==> sv[q].1 >= x.size,
            decreases sorted.len() - p,
        {
            p = p + 1;
        }
        proof {
            lemma_insert_desc_at(sv, x@, p as int);
            assert(fs.take(k + 1).drop_last() =~= fs.take(k as int));
            assert(fs.take(k + 1).last() == x@);
        }
        sorted.insert(p, x);
        assert(sorted@.map_values(|f: FileSummary| f@) =~= sv.take(p as int) + seq![x@] + sv.skip(p as int));
        k = k + 1;
    }
    assert(fs.take(files.len() as int) =~= fs);
    if sorted.len() > 5 {
        sorted.truncate(5);
        assert(sorted@.map_values(|f: FileSummary| f@) =~= sort_desc(fs).take(5));
    }
    sorted
}

// ---------------------------------------------------------------------------
// Planned compressed copies and destination conflicts
// ---------------------------------------------------------------------------

/// The file extension of a compressed copy.
pub open spec fn format_suffix(f: CompressedFormat) -> Seq<char> {
    match f {
        CompressedFormat::Gz => "gz"@,
        CompressedFormat::Bz2 => "bz2"@,
    }
}

pub fn format_extension(f: CompressedFormat) -> (r: &'static str)
    ensures
        r@ == format_suffix(f),
{
    match f {
        CompressedFormat::Gz => "gz",
        CompressedFormat::Bz2 => "bz2",
    }
}

/// The display path of the compressed copy of `path`: under `fastdl/` when a FastDL root is set.
pub open spec fn compressed_name(path: Seq<char>, f: CompressedFormat, fastdl: bool) -> Seq<char> {
    (if fastdl {
        "fastdl/"@
    } else {
        Seq::<char>::empty()
    }) + path + "."@ + format_suffix(f)
}

/// The compressed copies of the first `n` formats of one file.
pub open spec fn copies_of(path: Seq<char>, formats: Seq<CompressedFormat>, fastdl: bool, n: int) -> Seq<Seq<char>>
    decreases n,
{
    if n <= 0 {
        Seq::<Seq<char>>::empty()
    } else {
        copies_of(path, formats, fastdl, n - 1).push(compressed_name(path, formats[n - 1], fastdl))
    }
}

/// The compressed copies of the first `n` files, each file with every format in order.
pub open spec fn planned_copies(paths: Seq<Seq<char>>, formats: Seq<CompressedFormat>, fastdl: bool, n: int) -> Seq<Seq<char>>
    decreases n,
{
    if n <= 0 {
        Seq::<Seq<char>>::empty()
    } else {
        planned_copies(paths, formats, fastdl, n - 1) + copies_of(paths[n - 1], formats, fastdl, formats.len() as int)
    }
}

/// The paths of a list of files.
pub open spec fn file_paths(files: Seq<(Seq<char>, u64, u64)>) -> Seq<Seq<char>> {
    files.map_values(|f: (Seq<char>, u64, u64)| f.0)
}

fn compressed_display(path: &str, f: CompressedFormat, fastdl: bool) -> (r: String)
    ensures
        r@ == compressed_name(path@, f, fastdl),
{
    let base = if fastdl {
        concat2("fastdl/", path)
    } else {
        String::from_str(path)
    };
    let mut r = concat2(base.as_str(), ".");
    r.append(format_extension(f));
    proof {
        if !fastdl {
            assert(Seq::<char>::empty() + path@ =~= path@);
        }
    }
    r
}

/// The display path of every planned compressed copy, file by file and format by format.
pub fn planned_compressed_files(
    files: &Vec<FileSummary>,
    formats: &Vec<CompressedFormat>,
    fastdl: bool,
) -> (r: Vec<String>)
    ensures
        r@.map_values(|s: String| s@) == planned_copies(
            file_paths(files@.map_values(|f: FileSummary| f@)),
            formats@,
            fastdl,
            files@.len() as int,
        ),
{
    let ghost paths = file_paths(files@.map_values(|f: FileSummary| f@));
    let mut r: Vec<String> = Vec::new();
    let mut i: usize = 0;
    while i < files.len()
        invariant
            0 <= i <= files.len(),
            paths == file_paths(files@.map_values(|f: FileSummary| f@)),
            paths.len() == files@.len(),
            r@.map_values(|s: String| s@) == planned_copies(paths, formats@, fastdl, i as int),
        decreases files.len() - i,
    {
        let ghost base = r@.map_values(|s: String| s@);
        assert(paths[i as int] == files@[i as int].path@);
        let mut j: usize = 0;
        while j < formats.len()
            invariant
                0 <= j <= formats.len(),
                0 <= i < files.len(),
                paths[i as int] == files@[i as int].path@,
                r@.map_values(|s: String| s@) == base + copies_of(paths[i as int], formats@, fastdl, j as int),
            decreases formats.len() - j,
        {
            let ghost before = r@.map_values(|s: String| s@);
            r.push(compressed_display(files[i].path.as_str(), formats[j], fastdl));
            assert(r@.map_values(|s: String| s@) =~= before.push(compressed_name(paths[i as int], formats@[j as int], fastdl)));
            assert(base + copies_of(paths[i as int], formats@, fastdl, j + 1) =~= (base + copies_of(paths[i as int], formats@, fastdl, j as int)).push(compressed_name(paths[i as int], formats@[j as int], fastdl)));
            j = j + 1;
        }
        i = i + 1;
    }
    r
}

/// The first `n` strings that `existing` holds, in order.
pub open spec fn kept_existing(paths: Seq<Seq<char>>, existing: Seq<Seq<char>>, n: int) -> Seq<Seq<char>>
    decreases n,
{
    if n <= 0 {
        Seq::<Seq<char>>::empty()
    } else if holds(existing, paths[n - 1]) {
        kept_existing(paths, existing, n - 1).push(paths[n - 1])
    } else {
        kept_existing(paths, existing, n - 1)
    }
}

/// A compressed display path relative to its base folder (without the `fastdl/` marker).
pub open spec fn without_fastdl(p: Seq<char>) -> Seq<char> {
    if starts_with(p, "fastdl/"@) {
        p.skip(7)
    } else {
        p
    }
}

/// The first `n` compressed copies whose base-relative path `existing` holds, in order.
pub open spec fn kept_compressed(paths: Seq<Seq<char>>, existing: Seq<Seq<char>>, n: int) -> Seq<Seq<char>>
    decreases n,
{
    if n <= 0 {
        Seq::<Seq<char>>::empty()
    } else if holds(existing, without_fastdl(paths[n - 1])) {
        kept_compressed(paths, existing, n - 1).push(paths[n - 1])
    } else {
        kept_compressed(paths, existing, n - 1)
    }
}

proof fn lemma_kept_compressed_members(cs: Seq<Seq<char>>, ce: Seq<Seq<char>>, n: int)
    requires
        0 <= n <= cs.len(),
    ensures
        forall|k: int| 0 <= k < n && holds(ce, without_fastdl(cs[k])) ==> kept_compressed(cs, ce, n).contains(#[trigger] cs[k]),
        forall|q: Seq<char>| #[trigger] kept_compressed(cs, ce, n).contains(q) ==> holds(ce, without_fastdl(q)) && exists|k: int| 0 <= k < n && cs[k] == q,
    decreases n,
{
    if n > 0 {
        lemma_kept_compressed_members(cs, ce, n - 1);
        let prev = kept_compressed(cs, ce, n - 1);
        let cur = kept_compressed(cs, ce, n);
        assert forall|k: int| 0 <= k < n && holds(ce, without_fastdl(cs[k])) implies cur.contains(#[trigger] cs[k]) by {
            if k < n - 1 {
                assert(prev.contains(cs[k]));
                let w = choose|w: int| 0 <= w < prev.len() && prev[w] == cs[k];
                if holds(ce, without_fastdl(cs[n - 1])) {
                    assert(cur[w] == prev[w]);
                }
            } else {
                assert(cur[cur.len() - 1] == cs[n - 1]);
            }
        }
        assert forall|q: Seq<char>| #[trigger] cur.contains(q) implies holds(ce, without_fastdl(q)) && exists|k: int| 0 <= k < n && cs[k] == q by {
            let w = choose|w: int| 0 <= w < cur.len() && cur[w] == q;
            if w < prev.len() {
                assert(prev[w] == q);
                assert(prev.contains(q));
            } else {
                assert(q == cs[n - 1]);
            }
        }
    }
}

proof fn lemma_kept_compressed_counts(cs: Seq<Seq<char>>, ce: Seq<Seq<char>>, n: int)
    requires
        0 <= n <= cs.len(),
    ensures
        forall|q: Seq<char>| #[trigger] kept_compressed(cs, ce, n).to_multiset().count(q) == if holds(ce, without_fastdl(q)) {
            cs.take(n).to_multiset().count(q)
        } else {
            0
        },
    decreases n,
{
    broadcast use vstd::seq_lib::group_to_multiset_ensures, vstd::multiset::group_multiset_axioms;
    if n == 0 {
        assert(cs.take(0) =~= Seq::<Seq<char>>::empty());
    } else {
        lemma_kept_compressed_counts(cs, ce, n - 1);
        assert(cs.take(n) =~= cs.take(n - 1).push(cs[n - 1]));
        let prev = kept_compressed(cs, ce, n - 1);
        assert forall|q: Seq<char>| #[trigger] kept_compressed(cs, ce, n).to_multiset().count(q) == if holds(ce, without_fastdl(q)) {
            cs.take(n).to_multiset().count(q)
        } else {
            0
        } by {
            assert(prev.to_multiset().count(q) == if holds(ce, without_fastdl(q)) {
                cs.take(n - 1).to_multiset().count(q)
            } else {
                0
            });
            if holds(ce, without_fastdl(cs[n - 1])) {
                assert(kept_compressed(cs, ce, n) == prev.push(cs[n - 1]));
            } else {
                assert(kept_compressed(cs, ce, n) == prev);
            }
        }
    }
}

proof fn lemma_kept_existing_counts(cs: Seq<Seq<char>>, ce: Seq<Seq<char>>, n: int)
    requires
        0 <= n <= cs.len(),
    ensures
        forall|q: Seq<char>| #[trigger] kept_existing(cs, ce, n).to_multiset().count(q) == if holds(ce, q) {
            cs.take(n).to_multiset().count(q)
        } else {
            0
        },
    decreases n,
{
    broadcast use vstd::seq_lib::group_to_multiset_ensures, vstd::multiset::group_multiset_axioms;
    if n == 0 {
        assert(cs.take(0) =~= Seq::<Seq<char>>::empty());
    } else {
        lemma_kept_existing_counts(cs, ce, n - 1);
        assert(cs.take(n) =~= cs.take(n - 1).push(cs[n - 1]));
        let prev = kept_existing(cs, ce, n - 1);
        assert forall|q: Seq<char>| #[trigger] kept_existing(cs, ce, n).to_multiset().count(q) == if holds(ce, q) {
            cs.take(n).to_multiset().count(q)
        } else {
            0
        } by {
            assert(prev.to_multiset().count(q) == if holds(ce, q) {
                cs.take(n - 1).to_multiset().count(q)
            } else {
                0
            });
            if holds(ce, cs[n - 1]) {
                assert(kept_existing(cs, ce, n) == prev.push(cs[n - 1]));
            } else {
                assert(kept_existing(cs, ce, n) == prev);
            }
        }
    }
}

/// The conflicts list each conflicting destination as often as it is
/// planned, and nothing else: a planned compressed copy occurs among the
/// conflicts as many times as it is planned when it is found under the
/// compressed-copy folder (a `fastdl/` + x copy at x), and not at all
/// otherwise; an installed file likewise when it is found under the server root.
pub proof fn lemma_conflict_counts(paths: Seq<Seq<char>>, se: Seq<Seq<char>>, cs: Seq<Seq<char>>, ce: Seq<Seq<char>>)
    ensures
        forall|q: Seq<char>|
            #[trigger] kept_existing(paths, se, paths.len() as int).to_multiset().count(q) == if holds(se, q) {
                paths.to_multiset().count(q)
            } else {
                0
            },
        forall|q: Seq<char>|
            #[trigger] kept_compressed(cs, ce, cs.len() as int).to_multiset().count(q) == if (if starts_with(
                q,
                "fastdl/"@,
            ) {
                holds(ce, q.skip(7))
            } else {
                holds(ce, q)
            }) {
                cs.to_multiset().count(q)
            } else {
                0
            },
{
    reveal_strlit("fastdl/");
    lemma_kept_existing_counts(paths, se, paths.len() as int);
    lemma_kept_compressed_counts(cs, ce, cs.len() as int);
    assert(paths.take(paths.len() as int) =~= paths);
    assert(cs.take(cs.len() as int) =~= cs);
}

/// A planned compressed copy is a destination conflict exactly when it
/// already exists under the folder that holds the compressed copies, where a
/// copy shown as `fastdl/` + x lies at x and any other copy at its own path:
/// every such copy is listed, and every listed copy is a planned one found so.
pub proof fn lemma_compressed_conflicts(cs: Seq<Seq<char>>, ce: Seq<Seq<char>>)
    ensures
        forall|k: int, x: Seq<char>|
            #![trigger cs[k], holds(ce, x)]
            0 <= k < cs.len() && cs[k] == "fastdl/"@ + x && holds(ce, x)
                ==> kept_compressed(cs, ce, cs.len() as int).contains(cs[k]),
        forall|k: int|
            0 <= k < cs.len() && !starts_with(cs[k], "fastdl/"@) && holds(ce, cs[k])
                ==> kept_compressed(cs, ce, cs.len() as int).contains(#[trigger] cs[k]),
        forall|q: Seq<char>|
            #[trigger] kept_compressed(cs, ce, cs.len() as int).contains(q) ==> cs.contains(q) && (if starts_with(
                q,
                "fastdl/"@,
            ) {
                holds(ce, q.skip(7))
            } else {
                holds(ce, q)
            }),
{
    reveal_strlit("fastdl/");
    lemma_kept_compressed_members(cs, ce, cs.len() as int);
    assert forall|k: int, x: Seq<char>|
        #![trigger cs[k], holds(ce, x)]
        0 <= k < cs.len() && cs[k] == "fastdl/"@ + x && holds(ce, x)
            implies kept_compressed(cs, ce, cs.len() as int).contains(cs[k]) by {
        assert(cs[k].subrange(0, 7) =~= "fastdl/"@);
        assert(cs[k].skip(7) =~= x);
    }
}

/// An installed file is a destination conflict exactly when it already
/// exists under the server root: every such file is listed, and every listed
/// one is a file of the package found there.
pub proof fn lemma_installed_conflicts(paths: Seq<Seq<char>>, se: Seq<Seq<char>>)
    ensures
        forall|k: int| 0 <= k < paths.len() && holds(se, paths[k]) ==> kept_existing(paths, se, paths.len() as int).contains(#[trigger] paths[k]),
        forall|q: Seq<char>| #[trigger] kept_existing(paths, se, paths.len() as int).contains(q) ==> paths.contains(q) && holds(se, q),
{
    lemma_kept_existing_members(paths, se, paths.len() as int);
}

proof fn lemma_kept_existing_members(cs: Seq<Seq<char>>, ce: Seq<Seq<char>>, n: int)
    requires
        0 <= n <= cs.len(),
    ensures
        forall|k: int| 0 <= k < n && holds(ce, cs[k]) ==> kept_existing(cs, ce, n).contains(#[trigger] cs[k]),
        forall|q: Seq<char>| #[trigger] kept_existing(cs, ce, n).contains(q) ==> holds(ce, q) && exists|k: int| 0 <= k < n && cs[k] == q,
    decreases n,
{
    if n > 0 {
        lemma_kept_existing_members(cs, ce, n - 1);
        let prev = kept_existing(cs, ce, n - 1);
        let cur = kept_existing(cs, ce, n);
        assert forall|k: int| 0 <= k < n && holds(ce, cs[k]) implies cur.contains(#[trigger] cs[k]) by {
            if k < n - 1 {
                assert(prev.contains(cs[k]));
                let w = choose|w: int| 0 <= w < prev.len() && prev[w] == cs[k];
                if holds(ce, cs[n - 1]) {
                    assert(cur[w] == prev[w]);
                }
            } else {
                assert(cur[cur.len() - 1] == cs[n - 1]);
            }
        }
        assert forall|q: Seq<char>| #[trigger] cur.contains(q) implies holds(ce, q) && exists|k: int| 0 <= k < n && cs[k] == q by {
            let w = choose|w: int| 0 <= w < cur.len() && cur[w] == q;
            if w < prev.len() {
                assert(prev[w] == q);
                assert(prev.contains(q));
            } else {
                assert(q == cs[n - 1]);
            }
        }
    }
}

/// The path of a compressed copy relative to its base folder.
pub fn strip_fastdl(p: &str) -> (r: String)
    ensures
        r@ == without_fastdl(p@),
{
    let c = chars_of(p);
    let prefix = chars_of("fastdl/");
    if chars_starts_with(c.as_slice(), prefix.as_slice()) {
        let mut r = String::new();
        let mut i: usize = 7;
        proof {
            reveal_strlit("fastdl/");
        }
        assert(prefix@.len() == 7);
        while i < c.len()
            invariant
                7 <= i <= c.len(),
                r@ == c@.subrange(7, i as int),
            decreases c.len() - i,
        {
            crate::text::push_char(&mut r, c[i]);
            i = i + 1;
            assert(c@.subrange(7, i as int) =~= c@.subrange(7, i - 1).push(c@[i - 1]));
        }
        assert(c@.subrange(7, c@.len() as int) =~= c@.skip(7));
        r
    } else {
        String::from_str(p)
    }
}

/// The destinations that already exist: installed files first, then compressed copies.
/// `server_existing` lists the server-root-relative paths found to exist, and
/// `compressed_existing` the paths relative to the compressed-copy base folder.
pub fn destination_conflicts(
    files: &Vec<FileSummary>,
    compressed_files: &Vec<String>,
    server_existing: &Vec<String>,
    compressed_existing: &Vec<String>,
) -> (r: Vec<String>)
    ensures
        r@.map_values(|s: String| s@) == kept_existing(
            file_paths(files@.map_values(|f: FileSummary| f@)),
            server_existing@.map_values(|s: String| s@),
            files@.len() as int,
        ) + kept_compressed(
            compressed_files@.map_values(|s: String| s@),
            compressed_existing@.map_values(|s: String| s@),
            compressed_files@.len() as int,
        ),
{
    let ghost paths = file_paths(files@.map_values(|f: FileSummary| f@));
    let ghost se = server_existing@.map_values(|s: String| s@);
    let ghost cs = compressed_files@.map_values(|s: String| s@);
    let ghost ce = compressed_existing@.map_values(|s: String| s@);
    let mut r: Vec<String> = Vec::new();
    let mut i: usize = 0;
    while i < files.len()
        invariant
            0 <= i <= files.len(),
            paths == file_paths(files@.map_values(|f: FileSummary| f@)),
            se == server_existing@.map_values(|s: String| s@),
            r@.map_values(|s: String| s@) == kept_existing(paths, se, i as int),
        decreases files.len() - i,
    {
        assert(paths[i as int] == files@[i as int].path@);
        if list_has(server_existing, files[i].path.as_str()) {
            let ghost before = r@.map_values(|s: String| s@);
            r.push(files[i].path.clone());
            assert(r@.map_values(|s: String| s@) =~= before.push(paths[i as int]));
        }
        i = i + 1;
    }
    let ghost head = r@.map_values(|s: String| s@);
    let mut j: usize = 0;
    while j < compressed_files.len()
        invariant
            0 <= j <= compressed_files.len(),
            cs == compressed_files@.map_values(|s: String| s@),
            ce == compressed_existing@.map_values(|s: String| s@),
            r@.map_values(|s: String| s@) == head + kept_compressed(cs, ce, j as int),
        decreases compressed_files.len() - j,
    {
        assert(cs[j as int] == compressed_files@[j as int]@);
        let stripped = strip_fastdl(compressed_files[j].as_str());
        if list_has(compressed_existing, stripped.as_str()) {
            let ghost before = r@.map_values(|s: String| s@);
            r.push(compressed_files[j].clone());
            assert(r@.map_values(|s: String| s@) =~= before.push(cs[j as int]));
        }
        j = j + 1;
    }
    r
}

fn list_has(list: &Vec<String>, s: &str) -> (r: bool)
    ensures
        r == holds(list@.map_values(|x: String| x@), s@),
{
    crate::text::list_contains(list, s)
}

} // verus!
