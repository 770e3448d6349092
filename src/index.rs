//! The application index and the search over it.

use vstd::prelude::*;
use crate::entry::{AppEntry, EntryView};
use crate::recency::RecencyStore;
use crate::text::{
    chars_of, contains, contains_exec, lemma_lex_total, lex_le, lex_le_exec, lower_of, lowercase,
};

verus! {

broadcast use vstd::seq_lib::group_seq_properties;

/// The most entries a search returns.
pub const MAX_RESULTS: usize = 5;

/// All entries discovered for a session, in discovery order.
pub struct AppIndex {
    entries: Vec<AppEntry>,
}

/// The values of a vector of entries.
pub open spec fn views_of(v: Seq<AppEntry>) -> Seq<EntryView> {
    v.map_values(|e: AppEntry| e@)
}

impl View for AppIndex {
    type V = Seq<EntryView>;

    closed spec fn view(&self) -> Seq<EntryView> {
        views_of(self.entries@)
    }
}

/// The first entry of `s` named `name`, if any.
pub open spec fn lookup(s: Seq<EntryView>, name: Seq<char>) -> Option<EntryView>
    decreases s.len(),
{
    if s.len() == 0 {
        None
    } else if s[0].name == name {
        Some(s[0])
    } else {
        lookup(s.skip(1), name)
    }
}

/// An entry paired with the key that ranks it.
pub open spec fn keyed(keys: Seq<Vec<char>>, entries: Seq<AppEntry>) -> Seq<(Seq<char>, EntryView)> {
    Seq::new(entries.len(), |i: int| (keys[i]@, entries[i]@))
}

/// Each entry of `s` keyed by its case-folded name.
pub open spec fn keyed_by_folded_name(s: Seq<EntryView>) -> Seq<(Seq<char>, EntryView)> {
    s.map_values(|e: EntryView| (lower_of(e.name), e))
}

/// The keyed entries whose key contains `fq`, in their order.
pub open spec fn matching(fq: Seq<char>, ks: Seq<(Seq<char>, EntryView)>) -> Seq<(Seq<char>, EntryView)> {
    ks.filter(|p: (Seq<char>, EntryView)| contains(p.0, fq))
}

/// `s` with `e` placed after every element whose key sorts no later than
/// the key of `e`, counting from the back.
pub open spec fn insert_sorted(s: Seq<(Seq<char>, EntryView)>, e: (Seq<char>, EntryView)) -> Seq<
    (Seq<char>, EntryView),
>
    decreases s.len(),
{
    if s.len() == 0 || lex_le(s.last().0, e.0) {
        s.push(e)
    } else {
        insert_sorted(s.drop_last(), e).push(s.last())
    }
}

/// `s` in ascending order of key; elements with equal keys keep their order.
pub open spec fn sort_by_key(s: Seq<(Seq<char>, EntryView)>) -> Seq<(Seq<char>, EntryView)>
    decreases s.len(),
{
    if s.len() == 0 {
        s
    } else {
        insert_sorted(sort_by_key(s.drop_last()), s.last())
    }
}

/// At most the first `n` elements of `s`.
pub open spec fn first_n<A>(s: Seq<A>, n: nat) -> Seq<A> {
    if s.len() > n {
        s.take(n as int)
    } else {
        s
    }
}

/// The entries whose key contains `fq`, in ascending order of key (equal
/// keys keep their order), at most `MAX_RESULTS` of them.
pub open spec fn ranked(fq: Seq<char>, ks: Seq<(Seq<char>, EntryView)>) -> Seq<EntryView> {
    first_n(sort_by_key(matching(fq, ks)), MAX_RESULTS as nat).map_values(
        |p: (Seq<char>, EntryView)| p.1,
    )
}

/// What a search for `q` over `s` returns: nothing for the empty query;
/// otherwise the entries whose case-folded name contains the case-folded
/// query, ordered by case-folded name, at most `MAX_RESULTS` of them.
pub open spec fn search_result(q: Seq<char>, s: Seq<EntryView>) -> Seq<EntryView> {
    if q.len() == 0 {
        Seq::empty()
    } else {
        ranked(lower_of(q), keyed_by_folded_name(s))
    }
}

/// The entries of `s` named by `names`, in the order of `names`; names
/// without an entry are left out.
pub open spec fn joined(names: Seq<Seq<char>>, s: Seq<EntryView>) -> Seq<EntryView>
    decreases names.len(),
{
    if names.len() == 0 {
        Seq::empty()
    } else {
        let r = joined(names.drop_last(), s);
        match lookup(s, names.last()) {
            Some(e) => r.push(e),
            None => r,
        }
    }
}

/// What the launcher lists for query `q`: the recently launched entries
/// for the empty query, else the search result.
pub open spec fn listing(q: Seq<char>, s: Seq<EntryView>, recent: Seq<Seq<char>>) -> Seq<
    EntryView,
> {
    if q.len() == 0 {
        first_n(joined(recent, s), MAX_RESULTS as nat)
    } else {
        search_result(q, s)
    }
}

/// Inserting at the back-most place: past the trailing elements whose key
/// sorts after `e`'s, the rest of the insertion is a plain push.
proof fn lemma_insert_sorted_split(s: Seq<(Seq<char>, EntryView)>, e: (Seq<char>, EntryView), j: int)
    requires
        0 <= j <= s.len(),
        forall|k: int| j <= k < s.len() ==> !lex_le(s[k].0, e.0),
    ensures
        insert_sorted(s, e) == insert_sorted(s.take(j), e) + s.skip(j),
    decreases s.len() - j,
{
    if j < s.len() {
        let d = s.drop_last();
        assert(d.take(j) == s.take(j));
        lemma_insert_sorted_split(d, e, j);
        assert(s.last() == s[s.len() - 1]);
        assert(insert_sorted(s, e) == insert_sorted(d, e).push(s.last()));
        assert(s.skip(j) == d.skip(j).push(s.last()));
    } else {
        assert(s.take(j) == s);
    }
}

/// Every element of a sorted insertion is `e` or an element of `s`.
proof fn lemma_insert_sorted_elems(s: Seq<(Seq<char>, EntryView)>, e: (Seq<char>, EntryView))
    ensures
        insert_sorted(s, e).len() == s.len() + 1,
        forall|i: int| 0 <= i < insert_sorted(s, e).len() ==> #[trigger] insert_sorted(s, e)[i] == e
            || s.contains(insert_sorted(s, e)[i]),
    decreases s.len(),
{
    if !(s.len() == 0 || lex_le(s.last().0, e.0)) {
        let d = s.drop_last();
        lemma_insert_sorted_elems(d, e);
        let r = insert_sorted(d, e);
        assert forall|i: int| 0 <= i < r.len() + 1 implies #[trigger] r.push(s.last())[i] == e
            || s.contains(r.push(s.last())[i]) by {
            if i < r.len() {
                if r[i] != e {
                    let k = choose|k: int| 0 <= k < d.len() && d[k] == r[i];
                    assert(s[k] == r[i]);
                }
            } else {
                assert(s[s.len() - 1] == s.last());
            }
        }
    } else {
        assert forall|i: int| 0 <= i < s.len() + 1 implies #[trigger] s.push(e)[i] == e || s.contains(
            s.push(e)[i],
        ) by {
            if i < s.len() {
                assert(s[i] == s.push(e)[i]);
            }
        }
    }
}

/// Every element of the sorted sequence is an element of the unsorted one.
proof fn lemma_sort_elems(s: Seq<(Seq<char>, EntryView)>)
    ensures
        sort_by_key(s).len() == s.len(),
        forall|i: int| 0 <= i < sort_by_key(s).len() ==> s.contains(#[trigger] sort_by_key(s)[i]),
    decreases s.len(),
{
    if s.len() > 0 {
        let d = s.drop_last();
        lemma_sort_elems(d);
        lemma_insert_sorted_elems(sort_by_key(d), s.last());
        let r = sort_by_key(s);
        assert forall|i: int| 0 <= i < r.len() implies s.contains(#[trigger] r[i]) by {
            if r[i] == s.last() {
                assert(s[s.len() - 1] == s.last());
            } else {
                let k = choose|k: int| 0 <= k < sort_by_key(d).len() && sort_by_key(d)[k] == r[i];
                let m = choose|m: int| 0 <= m < d.len() && d[m] == sort_by_key(d)[k];
                assert(s[m] == r[i]);
            }
        }
    }
}

/// A search returns at most `MAX_RESULTS` entries, and each of them has a
/// case-folded name that contains the case-folded query.
pub proof fn lemma_search_matches(q: Seq<char>, s: Seq<EntryView>)
    ensures
        search_result(q, s).len() <= MAX_RESULTS,
        forall|i: int| 0 <= i < search_result(q, s).len() ==> contains(
            lower_of(#[trigger] search_result(q, s)[i].name),
            lower_of(q),
        ),
{
    if q.len() > 0 {
        let ks = keyed_by_folded_name(s);
        let pred = |p: (Seq<char>, EntryView)| contains(p.0, lower_of(q));
        let m = matching(lower_of(q), ks);
        lemma_sort_elems(m);
        let c = first_n(sort_by_key(m), MAX_RESULTS as nat);
        let r = search_result(q, s);
        assert forall|i: int| 0 <= i < r.len() implies contains(
            lower_of(#[trigger] r[i].name),
            lower_of(q),
        ) by {
            assert(r[i] == c[i].1);
            assert(c[i] == sort_by_key(m)[i]);
            let k = choose|k: int| 0 <= k < m.len() && m[k] == sort_by_key(m)[i];
            ks.lemma_filter_pred(pred, k);
            assert(m.contains(m[k]));
            ks.lemma_filter_contains_rev(pred, m[k]);
            let n = choose|n: int| 0 <= n < ks.len() && ks[n] == m[k];
            assert(ks[n].0 == lower_of(ks[n].1.name));
        }
    }
}

/// Neighbouring elements are in ascending order of key.
pub open spec fn ascending(s: Seq<(Seq<char>, EntryView)>) -> bool {
    forall|i: int| 0 <= i < s.len() - 1 ==> lex_le(#[trigger] s[i].0, s[i + 1].0)
}

/// A sorted insertion into an ascending sequence is ascending, and it ends
/// with `e` or with the last element of `s`.
proof fn lemma_insert_sorted_ascending(s: Seq<(Seq<char>, EntryView)>, e: (Seq<char>, EntryView))
    requires
        ascending(s),
    ensures
        ascending(insert_sorted(s, e)),
        insert_sorted(s, e).len() == s.len() + 1,
        insert_sorted(s, e).last() == e || (s.len() > 0 && insert_sorted(s, e).last() == s.last()),
    decreases s.len(),
{
    lemma_insert_sorted_elems(s, e);
    if s.len() == 0 || lex_le(s.last().0, e.0) {
        let r = s.push(e);
        assert forall|i: int| 0 <= i < r.len() - 1 implies lex_le(#[trigger] r[i].0, r[i + 1].0) by {
            if i < s.len() - 1 {
                assert(r[i] == s[i] && r[i + 1] == s[i + 1]);
            } else {
                assert(r[i] == s.last());
            }
        }
    } else {
        let d = s.drop_last();
        assert(ascending(d)) by {
            assert forall|i: int| 0 <= i < d.len() - 1 implies lex_le(#[trigger] d[i].0, d[i + 1].0) by {
                assert(d[i] == s[i] && d[i + 1] == s[i + 1]);
            }
        }
        lemma_insert_sorted_ascending(d, e);
        lemma_lex_total(s.last().0, e.0);
        let q = insert_sorted(d, e);
        let r = q.push(s.last());
        assert(lex_le(q.last().0, s.last().0)) by {
            if q.last() != e {
                assert(d.last() == s[s.len() - 2]);
                assert(s.last() == s[s.len() - 1]);
            }
        }
        assert forall|i: int| 0 <= i < r.len() - 1 implies lex_le(#[trigger] r[i].0, r[i + 1].0) by {
            if i < q.len() - 1 {
                assert(r[i] == q[i] && r[i + 1] == q[i + 1]);
            } else {
                assert(r[i] == q.last());
            }
        }
    }
}

/// Sorting gives an ascending sequence.
proof fn lemma_sort_ascending(s: Seq<(Seq<char>, EntryView)>)
    ensures
        ascending(sort_by_key(s)),
    decreases s.len(),
{
    if s.len() > 0 {
        lemma_sort_ascending(s.drop_last());
        lemma_insert_sorted_ascending(sort_by_key(s.drop_last()), s.last());
    }
}

/// A search lists its entries in ascending order of case-folded name.
pub proof fn lemma_search_ascending(q: Seq<char>, s: Seq<EntryView>)
    ensures
        forall|i: int|
            0 <= i < search_result(q, s).len() - 1 ==> lex_le(
                lower_of(#[trigger] search_result(q, s)[i].name),
                lower_of(search_result(q, s)[i + 1].name),
            ),
{
    if q.len() > 0 {
        let ks = keyed_by_folded_name(s);
        let pred = |p: (Seq<char>, EntryView)| contains(p.0, lower_of(q));
        let m = matching(lower_of(q), ks);
        let sorted = sort_by_key(m);
        lemma_sort_elems(m);
        lemma_sort_ascending(m);
        let c = first_n(sorted, MAX_RESULTS as nat);
        let r = search_result(q, s);
        assert forall|i: int| 0 <= i < sorted.len() implies (#[trigger] sorted[i]).0 == lower_of(
            sorted[i].1.name,
        ) by {
            let k = choose|k: int| 0 <= k < m.len() && m[k] == sorted[i];
            assert(m.contains(m[k]));
            ks.lemma_filter_contains_rev(pred, m[k]);
            let n = choose|n: int| 0 <= n < ks.len() && ks[n] == m[k];
            assert(ks[n] == (lower_of(s[n].name), s[n]));
        }
        assert forall|i: int| 0 <= i < r.len() - 1 implies lex_le(
            lower_of(#[trigger] r[i].name),
            lower_of(r[i + 1].name),
        ) by {
            assert(r[i] == c[i].1 && r[i + 1] == c[i + 1].1);
            assert(c[i] == sorted[i] && c[i + 1] == sorted[i + 1]);
        }
    }
}

/// A search over an empty index finds nothing, whatever the query.
pub proof fn lemma_search_empty(q: Seq<char>)
    ensures
        search_result(q, Seq::empty()).len() == 0,
{
    let e = Seq::<EntryView>::empty();
    reveal(Seq::filter);
    assert(keyed_by_folded_name(e).len() == 0);
    assert(matching(lower_of(q), keyed_by_folded_name(e)).len() == 0);
}

/// Ranks `entries` for a query: `folded_names[i]` is the key of
/// `entries[i]`, and the result holds the entries whose key contains
/// `folded_query`, in ascending order of key (equal keys keep their order),
/// at most `MAX_RESULTS` of them.
pub fn rank(folded_query: &Vec<char>, entries: &Vec<AppEntry>, folded_names: &Vec<Vec<char>>) -> (r:
    Vec<AppEntry>)
    requires
        folded_names.len() == entries.len(),
    ensures
        views_of(r@) == ranked(folded_query@, keyed(folded_names@, entries@)),
{
    let ghost ks = keyed(folded_names@, entries@);
    let mut order: Vec<usize> = Vec::new();
    let mut i: usize = 0;
    while i < entries.len()
        invariant
            i <= entries.len(),
            folded_names.len() == entries.len(),
            ks == keyed(folded_names@, entries@),
            forall|k: int| 0 <= k < order.len() ==> (#[trigger] order@[k]) < entries.len(),
            order@.map_values(|n: usize| ks[n as int]) == sort_by_key(
                matching(folded_query@, ks.take(i as int)),
            ),
        decreases entries.len() - i,
    {
        let ghost o = order@.map_values(|n: usize| ks[n as int]);
        let ghost m = matching(folded_query@, ks.take(i as int));
        let hit = contains_exec(&folded_names[i], folded_query);
        proof {
            reveal(Seq::filter);
            assert(ks.take(i + 1).drop_last() == ks.take(i as int));
            assert(ks.take(i + 1).last() == ks[i as int]);
            if hit {
                assert(matching(folded_query@, ks.take(i + 1)) == m.push(ks[i as int]));
                assert(m.push(ks[i as int]).drop_last() == m);
                assert(sort_by_key(m.push(ks[i as int])) == insert_sorted(sort_by_key(m), ks[i as int]));
            } else {
                assert(matching(folded_query@, ks.take(i + 1)) == m);
            }
        }
        if hit {
            let mut j: usize = order.len();
            while j > 0 && !lex_le_exec(&folded_names[order[j - 1]], &folded_names[i])
                invariant
                    j <= order.len(),
                    i < entries.len(),
                    folded_names.len() == entries.len(),
                    ks == keyed(folded_names@, entries@),
                    forall|k: int| 0 <= k < order.len() ==> (#[trigger] order@[k]) < entries.len(),
                    o == order@.map_values(|n: usize| ks[n as int]),
                    forall|k: int| j <= k < order.len() ==> !lex_le(o[k].0, ks[i as int].0),
                decreases j,
            {
                j = j - 1;
            }
            proof {
                lemma_insert_sorted_split(o, ks[i as int], j as int);
                assert(insert_sorted(o.take(j as int), ks[i as int]) == o.take(j as int).push(
                    ks[i as int],
                )) by {
                    if j > 0 {
                        assert(o.take(j as int).last() == o[j - 1]);
                    }
                }
            }
            order.insert(j, i);
            assert(order@.map_values(|n: usize| ks[n as int]) == o.take(j as int).push(ks[i as int])
                + o.skip(j as int));
        }
        i = i + 1;
    }
    assert(ks.take(ks.len() as int) == ks);
    let ghost sorted = sort_by_key(matching(folded_query@, ks));
    let count: usize = if order.len() > MAX_RESULTS {
        MAX_RESULTS
    } else {
        order.len()
    };
    let ghost chosen = first_n(sorted, MAX_RESULTS as nat);
    assert(chosen.len() == count);
    let mut out: Vec<AppEntry> = Vec::new();
    let mut k: usize = 0;
    while k < count
        invariant
            k <= count <= order.len(),
            count == chosen.len(),
            forall|q: int| 0 <= q < order.len() ==> (#[trigger] order@[q]) < entries.len(),
            order@.map_values(|n: usize| ks[n as int]) == sorted,
            chosen == first_n(sorted, MAX_RESULTS as nat),
            ks == keyed(folded_names@, entries@),
            views_of(out@) == chosen.take(k as int).map_values(|p: (Seq<char>, EntryView)| p.1),
        decreases count - k,
    {
        let e = entries[order[k]].duplicate();
        assert(chosen[k as int] == sorted[k as int]);
        assert(sorted[k as int] == ks[order@[k as int] as int]);
        assert(e@ == chosen[k as int].1);
        let ghost before = views_of(out@);
        out.push(e);
        assert(views_of(out@) == before.push(chosen[k as int].1));
        assert(chosen.take(k + 1) == chosen.take(k as int).push(chosen[k as int]));
        k = k + 1;
    }
    assert(chosen.take(count as int) == chosen);
    out
}

impl AppIndex {
    /// An index over `entries`, in their order.
    pub fn new(entries: Vec<AppEntry>) -> (r: AppIndex)
        ensures
            r@ == views_of(entries@),
    {
        AppIndex { entries }
    }

    /// The number of entries.
    pub fn len(&self) -> (r: usize)
        ensures
            r == self@.len(),
    {
        self.entries.len()
    }

    /// The entry at position `i`.
    pub fn get(&self, i: usize) -> (r: &AppEntry)
        requires
            i < self@.len(),
        ensures
            r@ == self@[i as int],
    {
        &self.entries[i]
    }

    /// The first entry named `name`, if any.
    pub fn lookup_by_name(&self, name: &str) -> (r: Option<AppEntry>)
        ensures
            match lookup(self@, name@) {
                Some(e) => r is Some && r->0@ == e,
                None => r is None,
            },
    {
        let key = name.to_owned();
        let ghost s = self@;
        let mut i: usize = 0;
        assert(s.skip(0) == s);
        while i < self.entries.len()
            invariant
                i <= self.entries.len(),
                s == self@,
                key@ == name@,
                lookup(s, key@) == lookup(s.skip(i as int), key@),
            decreases self.entries.len() - i,
        {
            assert(s.skip(i as int)[0] == s[i as int]);
            assert(s[i as int] == self.entries@[i as int]@);
            if self.entries[i].name == key {
                assert(lookup(s.skip(i as int), key@) == Some(s[i as int]));
                return Some(self.entries[i].duplicate());
            }
            assert(s.skip(i as int).skip(1) == s.skip(i + 1));
            i = i + 1;
        }
        None
    }

    /// The entries whose case-folded name contains the case-folded query,
    /// ordered by case-folded name (ties keep index order), at most
    /// `MAX_RESULTS` of them; nothing for the empty query.
    pub fn search(&self, query: &str) -> (r: Vec<AppEntry>)
        ensures
            views_of(r@) == search_result(query@, self@),
    {
        if query.is_empty() {
            let r: Vec<AppEntry> = Vec::new();
            assert(views_of(r@) == Seq::<EntryView>::empty());
            return r;
        }
        let folded_query = lowercase(query);
        let fq = chars_of(folded_query.as_str());
        let mut keys: Vec<Vec<char>> = Vec::new();
        let mut i: usize = 0;
        while i < self.entries.len()
            invariant
                i <= self.entries.len(),
                keys.len() == i,
                forall|k: int| 0 <= k < i ==> (#[trigger] keys@[k])@ == lower_of(self.entries@[k].name@),
            decreases self.entries.len() - i,
        {
            let folded = lowercase(self.entries[i].name.as_str());
            keys.push(chars_of(folded.as_str()));
            i = i + 1;
        }
        assert(keyed(keys@, self.entries@) == keyed_by_folded_name(self@));
        rank(&fq, &self.entries, &keys)
    }

    /// The entries of the names in `recent`, most recent first, at most
    /// `MAX_RESULTS` of them; names without an entry are left out.
    pub fn recent_entries(&self, recent: &RecencyStore) -> (r: Vec<AppEntry>)
        ensures
            views_of(r@) == first_n(joined(recent@, self@), MAX_RESULTS as nat),
    {
        let ghost names = recent@;
        let mut out: Vec<AppEntry> = Vec::new();
        let mut i: usize = 0;
        while i < recent.len()
            invariant
                i <= names.len(),
                names == recent@,
                views_of(out@) == joined(names.take(i as int), self@),
            decreases names.len() - i,
        {
            let found = self.lookup_by_name(recent.get(i));
            assert(names.take(i + 1).drop_last() == names.take(i as int));
            assert(names.take(i + 1).last() == names[i as int]);
            match found {
                Some(e) => {
                    out.push(e);
                },
                None => {},
            }
            i = i + 1;
        }
        assert(names.take(names.len() as int) == names);
        if out.len() > MAX_RESULTS {
            out.truncate(MAX_RESULTS);
        }
        out
    }

    /// What the launcher lists for `query`: the recently launched entries
    /// when it is empty, the search result otherwise.
    pub fn listing(&self, query: &str, recent: &RecencyStore) -> (r: Vec<AppEntry>)
        ensures
            views_of(r@) == listing(query@, self@, recent@),
    {
        if query.is_empty() {
            self.recent_entries(recent)
        } else {
            self.search(query)
        }
    }
}

} // verus!
