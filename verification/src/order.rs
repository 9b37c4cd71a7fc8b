use vstd::prelude::*;

verus! {

/// Lexicographic order on texts, character by character by code point.
/// `String`'s `Ord` compares the UTF-8 bytes, and UTF-8 keeps the order of
/// code points, so this is the order of `String::cmp`.
pub open spec fn lex_lt(a: Seq<char>, b: Seq<char>) -> bool
    decreases a.len(),
{
    if a.len() == 0 {
        b.len() > 0
    } else if b.len() == 0 {
        false
    } else if a[0] != b[0] {
        a[0] < b[0]
    } else {
        lex_lt(a.drop_first(), b.drop_first())
    }
}

/// A sort key: a text, then a number that orders equal texts.
pub open spec fn key_lt(a: (Seq<char>, nat), b: (Seq<char>, nat)) -> bool {
    lex_lt(a.0, b.0) || (a.0 == b.0 && a.1 < b.1)
}

/// `a` comes before `b` or is the same key.
pub open spec fn key_le(a: (Seq<char>, nat), b: (Seq<char>, nat)) -> bool {
    key_lt(a, b) || a == b
}

pub proof fn lemma_lex_irreflexive(a: Seq<char>)
    ensures
        !lex_lt(a, a),
    decreases a.len(),
{
    if a.len() > 0 {
        lemma_lex_irreflexive(a.drop_first());
    }
}

pub proof fn lemma_lex_total(a: Seq<char>, b: Seq<char>)
    ensures
        a != b ==> (lex_lt(a, b) || lex_lt(b, a)),
        !(lex_lt(a, b) && lex_lt(b, a)),
    decreases a.len(),
{
    if a.len() > 0 && b.len() > 0 {
        lemma_lex_total(a.drop_first(), b.drop_first());
        if a[0] == b[0] && a != b {
            assert(a.drop_first() != b.drop_first()) by {
                if a.drop_first() == b.drop_first() {
                    assert(a =~= seq![a[0]] + a.drop_first());
                    assert(b =~= seq![b[0]] + b.drop_first());
                }
            }
        }
    } else if a.len() == 0 && b.len() == 0 {
        assert(a =~= b);
    }
}

pub proof fn lemma_lex_transitive(a: Seq<char>, b: Seq<char>, c: Seq<char>)
    requires
        lex_lt(a, b),
        lex_lt(b, c),
    ensures
        lex_lt(a, c),
    decreases a.len(),
{
    if a.len() > 0 && b.len() > 0 && c.len() > 0 && a[0] == b[0] && b[0] == c[0] {
        lemma_lex_transitive(a.drop_first(), b.drop_first(), c.drop_first());
    }
}

pub proof fn lemma_key_order(a: (Seq<char>, nat), b: (Seq<char>, nat), c: (Seq<char>, nat))
    ensures
        !key_lt(a, a),
        a != b ==> key_lt(a, b) || key_lt(b, a),
        !(key_lt(a, b) && key_lt(b, a)),
        key_lt(a, b) && key_lt(b, c) ==> key_lt(a, c),
{
    lemma_lex_irreflexive(a.0);
    lemma_lex_total(a.0, b.0);
    if key_lt(a, b) && key_lt(b, c) {
        if lex_lt(a.0, b.0) && lex_lt(b.0, c.0) {
            lemma_lex_transitive(a.0, b.0, c.0);
        }
    }
}

/// The text order is `String`'s: a text comes before each of its proper
/// extensions, and otherwise two texts are ordered by the first character at
/// which they differ, whatever follows it.
pub proof fn lex_lt_is_string_order(p: Seq<char>, s: Seq<char>, x: char, y: char, u: Seq<char>, w: Seq<char>)
    ensures
        s.len() > 0 ==> lex_lt(p, p + s) && !lex_lt(p + s, p),
        x < y ==> lex_lt(p.push(x) + u, p.push(y) + w) && !lex_lt(p.push(y) + w, p.push(x) + u),
    decreases p.len(),
{
    if p.len() == 0 {
        assert(p + s =~= s);
        assert(p.push(x) + u =~= seq![x] + u);
        assert(p.push(y) + w =~= seq![y] + w);
        assert((p.push(x) + u)[0] == x);
        assert((p.push(y) + w)[0] == y);
    } else {
        lex_lt_is_string_order(p.drop_first(), s, x, y, u, w);
        assert((p + s).drop_first() =~= p.drop_first() + s);
        assert((p + s)[0] == p[0]);
        assert((p.push(x) + u).drop_first() =~= p.drop_first().push(x) + u);
        assert((p.push(y) + w).drop_first() =~= p.drop_first().push(y) + w);
        assert((p.push(x) + u)[0] == p[0]);
        assert((p.push(y) + w)[0] == p[0]);
    }
}

/// Whether `a` comes before `b` in the lexicographic order.
pub fn lex_less(a: &Vec<char>, b: &Vec<char>) -> (r: bool)
    ensures
        r == lex_lt(a@, b@),
{
    let mut i: usize = 0;
    assert(a@.skip(0) =~= a@);
    assert(b@.skip(0) =~= b@);
    while i < a.len() && i < b.len()
        invariant
            0 <= i <= a@.len(),
            i <= b@.len(),
            lex_lt(a@, b@) == lex_lt(a@.skip(i as int), b@.skip(i as int)),
        decreases a@.len() - i,
    {
        let ghost sa = a@.skip(i as int);
        let ghost sb = b@.skip(i as int);
        assert(sa[0] == a@[i as int]);
        assert(sb[0] == b@[i as int]);
        if a[i] != b[i] {
            return a[i] < b[i];
        }
        assert(sa.drop_first() =~= a@.skip(i + 1));
        assert(sb.drop_first() =~= b@.skip(i + 1));
        i = i + 1;
    }
    i < b.len()
}

/// An item with its sort key.
pub struct Keyed<T> {
    /// The text of the key.
    pub key: Vec<char>,
    /// The number that orders items with the same text.
    pub tie: u64,
    /// The item.
    pub item: T,
}

/// The key of a keyed item.
pub open spec fn key_of<T>(e: Keyed<T>) -> (Seq<char>, nat) {
    (e.key@, e.tie as nat)
}

/// Whether the item has the key `k`.
pub open spec fn has_key<T>(k: (Seq<char>, nat)) -> spec_fn(Keyed<T>) -> bool {
    |e: Keyed<T>| key_of(e) == k
}

/// The keys of `s` never decrease.
pub open spec fn sorted<T>(s: Seq<Keyed<T>>) -> bool {
    forall|i: int, j: int| 0 <= i < j < s.len() ==> key_le(key_of(s[i]), key_of(s[j]))
}

/// The keys of `s` strictly increase.
pub open spec fn strictly_sorted<T>(s: Seq<Keyed<T>>) -> bool {
    forall|i: int, j: int| 0 <= i < j < s.len() ==> key_lt(key_of(s[i]), key_of(s[j]))
}

/// No two items of `s` have the same key.
pub open spec fn distinct_keys<T>(s: Seq<Keyed<T>>) -> bool {
    forall|i: int, j: int| 0 <= i < s.len() && 0 <= j < s.len() && i != j ==> key_of(s[i]) != key_of(
        s[j],
    )
}

proof fn lemma_insert_multiset<T>(r: Seq<Keyed<T>>, p: int, x: Keyed<T>)
    requires
        0 <= p <= r.len(),
    ensures
        r.insert(p, x).to_multiset() == r.to_multiset().insert(x),
{
    broadcast use Seq::to_multiset_ensures;

    let ins = r.insert(p, x);
    r.insert_ensures(p, x);
    assert(ins.remove(p) =~= r);
    assert(ins[p] == x);
    ins.to_multiset_ensures();
    assert(ins.contains(x));
    assert(ins.to_multiset().count(x) > 0);
    assert(r.to_multiset() == ins.to_multiset().remove(x));
    assert(ins.to_multiset() =~= r.to_multiset().insert(x));
}

/// Whether the key of `a` comes before or equals that of `b`.
fn key_le_exec<T>(a: &Keyed<T>, b: &Keyed<T>) -> (r: bool)
    ensures
        r == key_le(key_of(*a), key_of(*b)),
{
    if lex_less(&a.key, &b.key) {
        return true;
    }
    proof {
        lemma_lex_total(a.key@, b.key@);
    }
    if a.key.len() != b.key.len() {
        return false;
    }
    let mut i: usize = 0;
    while i < a.key.len()
        invariant
            a.key@.len() == b.key@.len(),
            !lex_lt(a.key@, b.key@),
            0 <= i <= a.key@.len(),
            forall|k: int| 0 <= k < i ==> a.key@[k] == b.key@[k],
        decreases a.key@.len() - i,
    {
        if a.key[i] != b.key[i] {
            return false;
        }
        i = i + 1;
    }
    assert(a.key@ =~= b.key@);
    a.tie <= b.tie
}

proof fn lemma_insert_filter<T>(r: Seq<Keyed<T>>, p: int, x: Keyed<T>, k: (Seq<char>, nat))
    requires
        0 <= p <= r.len(),
        forall|j: int| p <= j < r.len() ==> key_lt(key_of(x), key_of(#[trigger] r[j])),
    ensures
        r.insert(p, x).filter(has_key::<T>(k)) == if key_of(x) == k {
            r.filter(has_key::<T>(k)).push(x)
        } else {
            r.filter(has_key::<T>(k))
        },
{
    broadcast use Seq::filter_distributes_over_add, Seq::lemma_filter_push;

    let f = has_key::<T>(k);
    let a = r.take(p);
    let b = r.skip(p);
    assert(r =~= a + b);
    assert(r.insert(p, x) =~= a.push(x) + b);
    if key_of(x) == k {
        assert forall|j: int| 0 <= j < b.len() implies !f(#[trigger] b[j]) by {
            assert(b[j] == r[p + j]);
            lemma_key_order(key_of(x), key_of(r[p + j]), key_of(x));
        }
        assert(b.all(|e: Keyed<T>| !f(e)));
        b.lemma_all_neg_filter_empty(f);
        assert(b.filter(f) =~= Seq::<Keyed<T>>::empty());
        assert(a.filter(f).push(x) + b.filter(f) =~= a.filter(f).push(x));
        assert(a.filter(f) + b.filter(f) =~= a.filter(f));
    }
}

/// Sorts the items by key, keeping the order of items with equal keys: the
/// result's keys never decrease, and for every key, the items with that key
/// come out in the order they came in.
pub fn stable_sort<T>(v: Vec<Keyed<T>>) -> (r: Vec<Keyed<T>>)
    ensures
        r@.len() == v@.len(),
        sorted(r@),
        forall|k: (Seq<char>, nat)| #[trigger] r@.filter(has_key::<T>(k)) == v@.filter(has_key::<T>(k)),
        r@.to_multiset() == v@.to_multiset(),
        distinct_keys(v@) ==> strictly_sorted(r@),
{
    broadcast use Seq::lemma_filter_push, Seq::to_multiset_ensures;

    let ghost orig = v@;
    let mut r: Vec<Keyed<T>> = Vec::new();
    assert(orig.take(0) =~= Seq::<Keyed<T>>::empty());
    for x in it: v.into_iter()
        invariant
            it.seq() == orig,
            r@.len() == it.index(),
            sorted(r@),
            forall|k: (Seq<char>, nat)| #[trigger] r@.filter(has_key::<T>(k)) == orig.take(
                it.index() as int,
            ).filter(has_key::<T>(k)),
            r@.to_multiset() == orig.take(it.index() as int).to_multiset(),
            distinct_keys(orig) ==> strictly_sorted(r@),
    {
        let ghost n = it.index();
        assert(x == orig[n as int]);
        let mut p: usize = 0;
        while p < r.len() && key_le_exec(&r[p], &x)
            invariant
                0 <= p <= r@.len(),
                forall|j: int| 0 <= j < p ==> key_le(key_of(#[trigger] r@[j]), key_of(x)),
            decreases r@.len() - p,
        {
            p = p + 1;
        }
        proof {
            assert forall|j: int| p <= j < r@.len() implies key_lt(
                key_of(x),
                key_of(#[trigger] r@[j]),
            ) by {
                lemma_key_order(key_of(r@[p as int]), key_of(x), key_of(r@[j]));
                lemma_key_order(key_of(x), key_of(r@[p as int]), key_of(r@[j]));
                if j > p {
                    assert(key_le(key_of(r@[p as int]), key_of(r@[j])));
                }
            }
            assert(orig.take(n + 1) =~= orig.take(n as int).push(x));
            assert forall|k: (Seq<char>, nat)| #[trigger] r@.insert(
                p as int,
                x,
            ).filter(has_key::<T>(k)) == orig.take(n + 1).filter(has_key::<T>(k)) by {
                lemma_insert_filter(r@, p as int, x, k);
                orig.take(n as int).lemma_filter_push(x, has_key::<T>(k));
                assert(r@.filter(has_key::<T>(k)) == orig.take(n as int).filter(has_key::<T>(k)));
            }
        }
        proof {
            if distinct_keys(orig) {
                assert forall|j: int| 0 <= j < r@.len() implies key_of(#[trigger] r@[j]) != key_of(
                    x,
                ) by {
                    assert(r@.contains(r@[j]));
                    r@.to_multiset_ensures();
                    orig.take(n as int).to_multiset_ensures();
                    assert(orig.take(n as int).to_multiset().count(r@[j]) > 0);
                    assert(orig.take(n as int).contains(r@[j]));
                    let m = choose|m: int| 0 <= m < n && orig.take(n as int)[m] == r@[j];
                    assert(orig[m] == r@[j]);
                }
            }
        }
        let ghost before = r@;
        r.insert(p, x);
        proof {
            lemma_insert_multiset(before, p as int, x);
            orig.take(n as int).to_multiset_ensures();
            assert(orig.take(n + 1).to_multiset() == orig.take(n as int).to_multiset().insert(x));
            before.insert_ensures(p as int, x);
            if distinct_keys(orig) {
                assert forall|i: int, j: int| 0 <= i < j < r@.len() implies key_lt(
                    key_of(r@[i]),
                    key_of(r@[j]),
                ) by {
                    if j < p {
                        assert(r@[i] == before[i]);
                        assert(r@[j] == before[j]);
                    } else if i < p && j == p {
                        assert(r@[i] == before[i]);
                        assert(key_of(before[i]) != key_of(x));
                    } else if i < p && j > p {
                        assert(r@[i] == before[i]);
                        assert(r@[j] == before[j - 1]);
                    } else if i == p {
                        assert(r@[j] == before[j - 1]);
                    } else {
                        assert(r@[i] == before[i - 1]);
                        assert(r@[j] == before[j - 1]);
                    }
                }
            }
            assert forall|i: int, j: int| 0 <= i < j < r@.len() implies key_le(
                key_of(r@[i]),
                key_of(r@[j]),
            ) by {
                if j < p {
                    assert(r@[i] == before[i]);
                    assert(r@[j] == before[j]);
                } else if i < p && j == p {
                } else if i < p && j > p {
                    assert(r@[j] == before[j - 1]);
                } else if i == p {
                    assert(r@[j] == before[j - 1]);
                } else {
                    assert(r@[i] == before[i - 1]);
                    assert(r@[j] == before[j - 1]);
                }
            }
        }
    }
    assert(orig.take(orig.len() as int) =~= orig);
    r
}

} // verus!
