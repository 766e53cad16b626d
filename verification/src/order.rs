//! The order of texts, and lists kept in it.
use crate::text::{chars_of, lemma_texts_push, same_text, texts};
use vstd::prelude::*;
use vstd::string::*;

verus! {

/// `a` comes before `b` or equals it, character by character.
pub open spec fn text_le(a: Seq<char>, b: Seq<char>) -> bool
    decreases a.len(),
{
    if a.len() == 0 {
        true
    } else if b.len() == 0 {
        false
    } else if a[0] == b[0] {
        text_le(a.skip(1), b.skip(1))
    } else {
        a[0] < b[0]
    }
}

/// Of two texts one comes before the other.
pub proof fn lemma_text_le_total(a: Seq<char>, b: Seq<char>)
    ensures
        text_le(a, b) || text_le(b, a),
    decreases a.len(),
{
    if a.len() > 0 && b.len() > 0 && a[0] == b[0] {
        lemma_text_le_total(a.skip(1), b.skip(1));
    }
}

/// Two texts that come before each other are the same.
pub proof fn lemma_text_le_antisymmetric(a: Seq<char>, b: Seq<char>)
    requires
        text_le(a, b),
        text_le(b, a),
    ensures
        a == b,
    decreases a.len(),
{
    if a.len() > 0 && b.len() > 0 {
        lemma_text_le_antisymmetric(a.skip(1), b.skip(1));
        assert(a == seq![a[0]] + a.skip(1));
        assert(b == seq![b[0]] + b.skip(1));
    } else {
        assert(a == b);
    }
}

/// The order of texts is transitive.
pub proof fn lemma_text_le_transitive(a: Seq<char>, b: Seq<char>, c: Seq<char>)
    requires
        text_le(a, b),
        text_le(b, c),
    ensures
        text_le(a, c),
    decreases a.len(),
{
    if a.len() > 0 && b.len() > 0 && c.len() > 0 && a[0] == b[0] && b[0] == c[0] {
        lemma_text_le_transitive(a.skip(1), b.skip(1), c.skip(1));
    }
}

/// Whether `a` comes before `b` or equals it.
pub fn le_text(a: &str, b: &str) -> (r: bool)
    ensures
        r == text_le(a@, b@),
{
    let x = chars_of(a);
    let y = chars_of(b);
    let mut i: usize = 0;
    assert(a@.skip(0) == a@);
    assert(b@.skip(0) == b@);
    while i < x.len()
        invariant
            x@ == a@,
            y@ == b@,
            i <= x@.len(),
            i <= y@.len(),
            text_le(a@, b@) == text_le(a@.skip(i as int), b@.skip(i as int)),
        decreases x@.len() - i,
    {
        if i >= y.len() {
            return false;
        }
        if x[i] != y[i] {
            return x[i] < y[i];
        }
        assert(a@.skip(i as int).skip(1) == a@.skip(i + 1));
        assert(b@.skip(i as int).skip(1) == b@.skip(i + 1));
        i += 1;
    }
    true
}

/// Each text comes before those that follow it.
pub open spec fn texts_sorted(s: Seq<Seq<char>>) -> bool {
    forall|i: int, j: int| 0 <= i < j < s.len() ==> text_le(#[trigger] s[i], #[trigger] s[j])
}

/// `s` lists the texts of `all`, each once, in order.
pub open spec fn sorted_listing(s: Seq<Seq<char>>, all: Set<Seq<char>>) -> bool {
    &&& texts_sorted(s)
    &&& s.no_duplicates()
    &&& s.to_set() == all
}

/// There is one sorted listing of a set of texts.
pub proof fn lemma_sorted_listing_unique(a: Seq<Seq<char>>, b: Seq<Seq<char>>, all: Set<Seq<char>>)
    requires
        sorted_listing(a, all),
        sorted_listing(b, all),
    ensures
        a == b,
    decreases a.len(),
{
    if a.len() == 0 {
        if b.len() > 0 {
            assert(b.to_set().contains(b[0]));
            assert(a.to_set().contains(b[0]));
        }
        assert(a == b);
    } else {
        let x = a.last();
        assert(a.to_set().contains(x));
        assert(b.to_set().contains(x));
        let j = choose|j: int| 0 <= j < b.len() && b[j] == x;
        let y = b.last();
        assert(b.to_set().contains(y));
        assert(a.to_set().contains(y));
        let i = choose|i: int| 0 <= i < a.len() && a[i] == y;
        if i < a.len() - 1 && j < b.len() - 1 {
            assert(text_le(a[i], a[a.len() - 1]));
            assert(text_le(b[j], b[b.len() - 1]));
            lemma_text_le_antisymmetric(x, y);
        }
        assert(x == y);
        let rest = all.remove(x);
        lemma_drop_last_listing(a, all);
        lemma_drop_last_listing(b, all);
        lemma_sorted_listing_unique(a.drop_last(), b.drop_last(), rest);
        assert(a == a.drop_last().push(x));
        assert(b == b.drop_last().push(x));
    }
}

proof fn lemma_drop_last_listing(a: Seq<Seq<char>>, all: Set<Seq<char>>)
    requires
        sorted_listing(a, all),
        a.len() > 0,
    ensures
        sorted_listing(a.drop_last(), all.remove(a.last())),
{
    let d = a.drop_last();
    assert forall|t: Seq<char>| d.to_set().contains(t) <==> all.remove(a.last()).contains(t) by {
        if d.to_set().contains(t) {
            let k = choose|k: int| 0 <= k < d.len() && d[k] == t;
            assert(a[k] == t);
            assert(a.to_set().contains(t));
        }
        if all.remove(a.last()).contains(t) {
            assert(a.to_set().contains(t));
            let k = choose|k: int| 0 <= k < a.len() && a[k] == t;
            assert(d[k] == t);
        }
    }
    assert(d.to_set() =~= all.remove(a.last()));
}

/// Whether the list holds the text.
pub fn holds_text(v: &Vec<String>, s: &str) -> (r: bool)
    ensures
        r == texts(v@).contains(s@),
{
    match position_of(v, s) {
        Some(i) => {
            assert(texts(v@)[i as int] == s@);
            true
        },
        None => false,
    }
}

/// The first position of the text in the list.
pub open spec fn position(s: Seq<Seq<char>>, t: Seq<char>) -> Option<int> {
    if s.contains(t) {
        Some(s.index_of_first(t)->0)
    } else {
        None
    }
}

/// The first position of the text in the list.
pub fn position_of(v: &Vec<String>, s: &str) -> (r: Option<usize>)
    ensures
        match r {
            Some(i) => {
                &&& i < v@.len()
                &&& v@[i as int]@ == s@
                &&& position(texts(v@), s@) == Some(i as int)
            },
            None => !texts(v@).contains(s@) && position(texts(v@), s@) is None,
        },
{
    let mut i: usize = 0;
    while i < v.len()
        invariant
            i <= v@.len(),
            forall|j: int| 0 <= j < i ==> #[trigger] texts(v@)[j] != s@,
        decreases v@.len() - i,
    {
        if same_text(v[i].as_str(), s) {
            proof {
                let t = texts(v@);
                assert(t[i as int] == s@);
                t.index_of_first_ensures(s@);
            }
            return Some(i);
        }
        i += 1;
    }
    None
}

/// The list with the text added at its end, unless the list holds it.
pub open spec fn with_text(s: Seq<Seq<char>>, t: Seq<char>) -> Seq<Seq<char>> {
    if s.contains(t) {
        s
    } else {
        s.push(t)
    }
}

/// Adds the text at the end of the list, unless the list holds it.
pub fn add_text(v: &mut Vec<String>, s: &str)
    ensures
        texts(final(v)@) == with_text(texts(old(v)@), s@),
{
    if !holds_text(v, s) {
        let owned = s.to_owned();
        proof {
            lemma_texts_push(v@, owned);
        }
        v.push(owned);
    }
}

/// A list of distinct texts stays one.
pub proof fn lemma_with_text(s: Seq<Seq<char>>, t: Seq<char>)
    requires
        s.no_duplicates(),
    ensures
        with_text(s, t).no_duplicates(),
        with_text(s, t).to_set() == s.to_set().insert(t),
{
    let w = with_text(s, t);
    assert forall|x: Seq<char>| w.to_set().contains(x) <==> s.to_set().insert(t).contains(x) by {
        if w.to_set().contains(x) {
            let k = choose|k: int| 0 <= k < w.len() && w[k] == x;
            if k < s.len() {
                assert(s[k] == x);
            }
        }
        if s.to_set().insert(t).contains(x) {
            if s.to_set().contains(x) {
                let k = choose|k: int| 0 <= k < s.len() && s[k] == x;
                assert(w[k] == x);
            } else if s.contains(t) {
            } else {
                assert(w[s.len() as int] == t);
            }
        }
    }
    assert(w.to_set() =~= s.to_set().insert(t));
}

/// The list with the text put before the first text that comes after it.
fn insert_sorted(v: &mut Vec<String>, s: String)
    requires
        texts_sorted(texts(old(v)@)),
    ensures
        texts_sorted(texts(final(v)@)),
        texts(final(v)@).to_multiset() == texts(old(v)@).to_multiset().insert(s@),
        exists|k: int| 0 <= k <= old(v)@.len() && texts(final(v)@) == texts(old(v)@).insert(k, s@),
{
    let mut k: usize = 0;
    while k < v.len() && le_text(v[k].as_str(), s.as_str())
        invariant
            k <= v@.len(),
            v@ == old(v)@,
            forall|j: int| 0 <= j < k ==> text_le(#[trigger] texts(v@)[j], s@),
        decreases v@.len() - k,
    {
        assert(texts(v@)[k as int] == v@[k as int]@);
        k += 1;
    }
    let ghost t = texts(v@);
    let ghost text = s@;
    assert(k < v@.len() ==> !text_le(t[k as int], text));
    v.insert(k, s);
    proof {
        let u = texts(v@);
        assert(u =~= t.insert(k as int, text));
        if k < t.len() {
            lemma_text_le_total(t[k as int], text);
        }
        assert forall|i: int, j: int| 0 <= i < j < u.len() implies text_le(
            #[trigger] u[i],
            #[trigger] u[j],
        ) by {
            if i < k && j == k {
            } else if i == k {
                if j - 1 > k {
                    assert(text_le(t[k as int], t[j - 1]));
                    lemma_text_le_transitive(text, t[k as int], t[j - 1]);
                }
            } else if j < k {
                assert(text_le(t[i], t[j]));
            } else if i < k {
                assert(text_le(t[i], t[j - 1]));
            } else {
                assert(text_le(t[i - 1], t[j - 1]));
            }
        }
        vstd::seq_lib::to_multiset_insert(t, k as int, text);
    }
}

/// Puts the texts of a list in order.
pub fn sort_texts(v: &Vec<String>) -> (r: Vec<String>)
    ensures
        texts_sorted(texts(r@)),
        texts(r@).to_multiset() == texts(v@).to_multiset(),
{
    let mut r: Vec<String> = Vec::new();
    let mut i: usize = 0;
    let ghost t = texts(v@);
    proof {
        assert(texts(r@) =~= t.take(0));
    }
    while i < v.len()
        invariant
            i <= v@.len(),
            t == texts(v@),
            texts_sorted(texts(r@)),
            texts(r@).to_multiset() == t.take(i as int).to_multiset(),
        decreases v@.len() - i,
    {
        let s = v[i].clone();
        proof {
            assert(t.take(i + 1) =~= t.take(i as int).push(s@));
            broadcast use vstd::seq_lib::group_to_multiset_ensures;
        }
        insert_sorted(&mut r, s);
        i += 1;
    }
    proof {
        assert(t.take(i as int) =~= t);
    }
    r
}

/// Puts the texts of a list in order that holds each once.
pub fn sort_distinct(v: &Vec<String>) -> (r: Vec<String>)
    requires
        texts(v@).no_duplicates(),
    ensures
        sorted_listing(texts(r@), texts(v@).to_set()),
{
    let r = sort_texts(v);
    proof {
        let a = texts(v@);
        let b = texts(r@);
        broadcast use vstd::seq_lib::group_to_multiset_ensures;

        a.lemma_multiset_has_no_duplicates();
        b.lemma_multiset_has_no_duplicates_conv();
        assert forall|t: Seq<char>| a.to_set().contains(t) <==> b.to_set().contains(t) by {
            assert(a.contains(t) <==> a.to_multiset().count(t) > 0);
            assert(b.contains(t) <==> b.to_multiset().count(t) > 0);
        }
        assert(b.to_set() =~= a.to_set());
    }
    r
}

/// Adds each text of a list to another, unless that holds it.
pub fn add_texts(v: &mut Vec<String>, more: &Vec<String>)
    requires
        texts(old(v)@).no_duplicates(),
    ensures
        texts(final(v)@).no_duplicates(),
        texts(final(v)@).to_set() == texts(old(v)@).to_set().union(texts(more@).to_set()),
{
    let ghost all = texts(more@);
    let ghost before = texts(v@).to_set();
    let mut i: usize = 0;
    assert(before.union(all.take(0).to_set()) =~= before);
    while i < more.len()
        invariant
            i <= more@.len(),
            all == texts(more@),
            texts(v@).no_duplicates(),
            texts(v@).to_set() == before.union(all.take(i as int).to_set()),
        decreases more@.len() - i,
    {
        proof {
            lemma_with_text(texts(v@), more@[i as int]@);
            let a = all.take(i as int);
            let b = all.take(i + 1);
            assert(b == a.push(all[i as int]));
            assert forall|t: Seq<char>| b.to_set().contains(t) <==> a.to_set().insert(
                all[i as int],
            ).contains(t) by {
                if a.to_set().contains(t) {
                    let k = choose|k: int| 0 <= k < a.len() && a[k] == t;
                    assert(b[k] == t);
                }
                if t == all[i as int] {
                    assert(b[i as int] == t);
                }
                if b.to_set().contains(t) {
                    let k = choose|k: int| 0 <= k < b.len() && b[k] == t;
                    if k < i {
                        assert(a[k] == t);
                    }
                }
            }
            assert(b.to_set() =~= a.to_set().insert(all[i as int]));
        }
        add_text(v, more[i].as_str());
        assert(texts(v@).to_set() =~= before.union(all.take(i + 1).to_set()));
        i += 1;
    }
    assert(all.take(i as int) == all);
}

} // verus!
