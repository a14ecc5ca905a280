//! The cache store: a positive map from cache key to captured response,
//! a bounded negative map for 404 responses with FIFO eviction, and
//! pattern-based invalidation.

use vstd::prelude::*;
use crate::path_matcher::{glob_match, matches_path_pattern};

verus! {

/// A cache refresh request: clear everything, or clear the keys matching
/// a wildcard pattern.
#[derive(Clone, Debug)]
pub enum RefreshMessage {
    /// Refresh all cache entries
    All,
    /// Refresh cache entries matching a pattern (supports wildcards)
    Pattern(String),
}

/// The mathematical value of a refresh message.
pub ghost enum MessageView {
    All,
    Pattern(Seq<char>),
}

impl View for RefreshMessage {
    type V = MessageView;

    open spec fn view(&self) -> MessageView {
        match self {
            RefreshMessage::All => MessageView::All,
            RefreshMessage::Pattern(p) => MessageView::Pattern(p@),
        }
    }
}

/// A captured origin response: body bytes, headers as ordered
/// (name, value) pairs, and the status code.
#[derive(Clone, Debug)]
pub struct CachedResponse {
    pub body: Vec<u8>,
    pub headers: Vec<(String, String)>,
    pub status: u16,
}

/// The mathematical value of a captured response.
#[verifier::ext_equal]
pub ghost struct ResponseView {
    pub body: Seq<u8>,
    pub headers: Seq<(Seq<char>, Seq<char>)>,
    pub status: u16,
}

impl View for CachedResponse {
    type V = ResponseView;

    open spec fn view(&self) -> ResponseView {
        ResponseView {
            body: self.body@,
            headers: self.headers@.map_values(|h: (String, String)| (h.0@, h.1@)),
            status: self.status,
        }
    }
}

impl CachedResponse {
    /// An equal copy of the response.
    pub fn duplicate(&self) -> (r: CachedResponse)
        ensures
            r@ == self@,
    {
        let mut body: Vec<u8> = Vec::new();
        let mut i: usize = 0;
        while i < self.body.len()
            invariant
                i <= self.body.len(),
                body@ == self.body@.take(i as int),
            decreases self.body.len() - i,
        {
            body.push(self.body[i]);
            proof {
                assert(body@ =~= self.body@.take(i + 1 as int));
            }
            i = i + 1;
        }
        let mut headers: Vec<(String, String)> = Vec::new();
        let mut j: usize = 0;
        while j < self.headers.len()
            invariant
                j <= self.headers.len(),
                headers@.len() == j,
                forall|k: int|
                    0 <= k < j ==> (#[trigger] headers@[k]).0@ == self.headers@[k].0@
                        && headers@[k].1@ == self.headers@[k].1@,
            decreases self.headers.len() - j,
        {
            let name = self.headers[j].0.clone();
            let value = self.headers[j].1.clone();
            headers.push((name, value));
            j = j + 1;
        }
        let r = CachedResponse { body, headers, status: self.status };
        proof {
            assert(r@.body =~= self@.body);
            assert(r@.headers =~= self@.headers);
            assert(r@ =~= self@);
        }
        r
    }
}

/// One stored binding: a key and the response cached under it.
pub type EntryView = (Seq<char>, ResponseView);

/// The response bound to `k`, if any: the first binding with that key.
pub open spec fn lookup_key(es: Seq<EntryView>, k: Seq<char>) -> Option<ResponseView>
    decreases es.len(),
{
    if es.len() == 0 {
        None
    } else if es[0].0 == k {
        Some(es[0].1)
    } else {
        lookup_key(es.drop_first(), k)
    }
}

/// The entries with every binding of `k` removed.
pub open spec fn remove_key(es: Seq<EntryView>, k: Seq<char>) -> Seq<EntryView>
    decreases es.len(),
{
    if es.len() == 0 {
        es
    } else if es[0].0 == k {
        remove_key(es.drop_first(), k)
    } else {
        seq![es[0]] + remove_key(es.drop_first(), k)
    }
}

/// Insert or replace the binding of `k`: any old binding is removed and
/// the new one appended at the end.
pub open spec fn insert_entry(es: Seq<EntryView>, k: Seq<char>, v: ResponseView) -> Seq<EntryView> {
    remove_key(es, k).push((k, v))
}

/// The entries whose keys do not match the glob pattern `p`.
pub open spec fn purge_matching(es: Seq<EntryView>, p: Seq<char>) -> Seq<EntryView>
    decreases es.len(),
{
    if es.len() == 0 {
        es
    } else if glob_match(es[0].0, p) {
        purge_matching(es.drop_first(), p)
    } else {
        seq![es[0]] + purge_matching(es.drop_first(), p)
    }
}

/// No two entries share a key.
pub open spec fn distinct_keys(es: Seq<EntryView>) -> bool {
    forall|i: int, j: int| 0 <= i < j < es.len() ==> (#[trigger] es[i]).0 != (#[trigger] es[j]).0
}

/// The last `cap` elements of `s`, or all of `s` if it is shorter.
pub open spec fn last_up_to(s: Seq<EntryView>, cap: nat) -> Seq<EntryView> {
    if s.len() <= cap {
        s
    } else {
        s.skip(s.len() - cap)
    }
}

/// One negative-cache insertion: a no-op when the capacity is zero;
/// otherwise the key moves to the back of the FIFO with its new response,
/// and the oldest entries beyond the capacity are evicted.
pub open spec fn set_404_step(
    es: Seq<EntryView>,
    k: Seq<char>,
    v: ResponseView,
    cap: nat,
) -> Seq<EntryView> {
    if cap == 0 {
        es
    } else {
        last_up_to(insert_entry(es, k, v), cap)
    }
}

/// The cache store: the positive entries, the negative (404) entries in
/// FIFO order, and the negative capacity.
#[verifier::ext_equal]
pub ghost struct StoreView {
    pub entries: Seq<EntryView>,
    pub entries_404: Seq<EntryView>,
    pub capacity_404: nat,
}

/// The view of a vector of stored bindings.
pub open spec fn view_entries(v: Seq<(String, CachedResponse)>) -> Seq<EntryView> {
    v.map_values(|e: (String, CachedResponse)| (e.0@, e.1@))
}

/// Cache storage for captured responses, with a separate bounded store
/// for 404 responses evicted first-in first-out.
pub struct CacheStore {
    store: Vec<(String, CachedResponse)>,
    store_404: Vec<(String, CachedResponse)>,
    cache_404_capacity: usize,
}

impl View for CacheStore {
    type V = StoreView;

    closed spec fn view(&self) -> StoreView {
        StoreView {
            entries: view_entries(self.store@),
            entries_404: view_entries(self.store_404@),
            capacity_404: self.cache_404_capacity as nat,
        }
    }
}

proof fn lemma_lookup_found(es: Seq<EntryView>, k: Seq<char>, i: int)
    requires
        0 <= i < es.len(),
        es[i].0 == k,
        forall|j: int| 0 <= j < i ==> (#[trigger] es[j]).0 != k,
    ensures
        lookup_key(es, k) == Some(es[i].1),
    decreases i,
{
    if i > 0 {
        lemma_lookup_found(es.drop_first(), k, i - 1);
    }
}

proof fn lemma_lookup_absent(es: Seq<EntryView>, k: Seq<char>)
    requires
        forall|j: int| 0 <= j < es.len() ==> (#[trigger] es[j]).0 != k,
    ensures
        lookup_key(es, k) is None,
    decreases es.len(),
{
    if es.len() > 0 {
        lemma_lookup_absent(es.drop_first(), k);
    }
}

proof fn lemma_remove_key_absent(es: Seq<EntryView>, k: Seq<char>)
    requires
        forall|j: int| 0 <= j < es.len() ==> (#[trigger] es[j]).0 != k,
    ensures
        remove_key(es, k) == es,
    decreases es.len(),
{
    if es.len() > 0 {
        lemma_remove_key_absent(es.drop_first(), k);
        assert(seq![es[0]] + es.drop_first() =~= es);
    }
}

proof fn lemma_remove_key_first(es: Seq<EntryView>, k: Seq<char>, i: int)
    requires
        0 <= i < es.len(),
        es[i].0 == k,
        forall|j: int| 0 <= j < es.len() && j != i ==> (#[trigger] es[j]).0 != k,
    ensures
        remove_key(es, k) == es.remove(i),
    decreases i,
{
    if i == 0 {
        lemma_remove_key_absent(es.drop_first(), k);
        assert(es.remove(0) =~= es.drop_first());
    } else {
        lemma_remove_key_first(es.drop_first(), k, i - 1);
        assert(seq![es[0]] + es.drop_first().remove(i - 1) =~= es.remove(i));
    }
}

proof fn lemma_remove_key_spares(es: Seq<EntryView>, k: Seq<char>)
    ensures
        forall|j: int|
            0 <= j < remove_key(es, k).len() ==> (#[trigger] remove_key(es, k)[j]).0 != k,
        forall|j: int|
            0 <= j < remove_key(es, k).len() ==> es.contains(#[trigger] remove_key(es, k)[j]),
        remove_key(es, k).len() <= es.len(),
    decreases es.len(),
{
    if es.len() > 0 {
        lemma_remove_key_spares(es.drop_first(), k);
        assert forall|j: int|
            0 <= j < remove_key(es.drop_first(), k).len() implies es.contains(
            #[trigger] remove_key(es.drop_first(), k)[j],
        ) by {
            assert(es.drop_first().contains(remove_key(es.drop_first(), k)[j]));
            let w = choose|w: int|
                0 <= w < es.drop_first().len() && es.drop_first()[w] == remove_key(
                    es.drop_first(),
                    k,
                )[j];
            assert(es[w + 1] == remove_key(es.drop_first(), k)[j]);
        }
        if es[0].0 != k {
            assert forall|j: int|
                0 <= j < remove_key(es, k).len() implies es.contains(
                #[trigger] remove_key(es, k)[j],
            ) by {
                if j == 0 {
                    assert(remove_key(es, k)[0] == es[0]);
                } else {
                    assert(remove_key(es, k)[j] == remove_key(es.drop_first(), k)[j - 1]);
                }
            }
        }
    }
}

proof fn lemma_remove_key_distinct(es: Seq<EntryView>, k: Seq<char>)
    requires
        distinct_keys(es),
    ensures
        distinct_keys(remove_key(es, k)),
    decreases es.len(),
{
    if es.len() > 0 {
        assert(distinct_keys(es.drop_first()));
        lemma_remove_key_distinct(es.drop_first(), k);
        lemma_remove_key_spares(es.drop_first(), k);
        if es[0].0 != k {
            let r = remove_key(es, k);
            let rd = remove_key(es.drop_first(), k);
            assert forall|i: int, j: int| 0 <= i < j < r.len() implies (#[trigger] r[i]).0 != (
            #[trigger] r[j]).0 by {
                if i == 0 {
                    assert(r[j] == rd[j - 1]);
                    assert(es.drop_first().contains(rd[j - 1]));
                    let w = choose|w: int|
                        0 <= w < es.drop_first().len() && es.drop_first()[w] == rd[j - 1];
                    assert(es[w + 1] == rd[j - 1]);
                    assert(es[0].0 != es[w + 1].0);
                } else {
                    assert(r[i] == rd[i - 1]);
                    assert(r[j] == rd[j - 1]);
                }
            }
        }
    }
}

proof fn lemma_purge_props(es: Seq<EntryView>, p: Seq<char>)
    ensures
        forall|j: int|
            0 <= j < purge_matching(es, p).len() ==> es.contains(
                #[trigger] purge_matching(es, p)[j],
            ),
        purge_matching(es, p).len() <= es.len(),
    decreases es.len(),
{
    if es.len() > 0 {
        lemma_purge_props(es.drop_first(), p);
        let rd = purge_matching(es.drop_first(), p);
        assert forall|j: int| 0 <= j < rd.len() implies es.contains(#[trigger] rd[j]) by {
            assert(es.drop_first().contains(rd[j]));
            let w = choose|w: int| 0 <= w < es.drop_first().len() && es.drop_first()[w] == rd[j];
            assert(es[w + 1] == rd[j]);
        }
        if !glob_match(es[0].0, p) {
            let r = purge_matching(es, p);
            assert forall|j: int| 0 <= j < r.len() implies es.contains(#[trigger] r[j]) by {
                if j == 0 {
                    assert(r[0] == es[0]);
                } else {
                    assert(r[j] == rd[j - 1]);
                }
            }
        }
    }
}

proof fn lemma_purge_distinct(es: Seq<EntryView>, p: Seq<char>)
    requires
        distinct_keys(es),
    ensures
        distinct_keys(purge_matching(es, p)),
    decreases es.len(),
{
    if es.len() > 0 {
        assert(distinct_keys(es.drop_first()));
        lemma_purge_distinct(es.drop_first(), p);
        lemma_purge_props(es.drop_first(), p);
        if !glob_match(es[0].0, p) {
            let r = purge_matching(es, p);
            let rd = purge_matching(es.drop_first(), p);
            assert forall|i: int, j: int| 0 <= i < j < r.len() implies (#[trigger] r[i]).0 != (
            #[trigger] r[j]).0 by {
                if i == 0 {
                    assert(r[j] == rd[j - 1]);
                    assert(es.drop_first().contains(rd[j - 1]));
                    let w = choose|w: int|
                        0 <= w < es.drop_first().len() && es.drop_first()[w] == rd[j - 1];
                    assert(es[w + 1] == rd[j - 1]);
                    assert(es[0].0 != es[w + 1].0);
                } else {
                    assert(r[i] == rd[i - 1]);
                    assert(r[j] == rd[j - 1]);
                }
            }
        }
    }
}

/// No entry surviving a pattern purge matches the pattern.
pub proof fn lemma_purge_no_survivor(es: Seq<EntryView>, p: Seq<char>)
    ensures
        forall|j: int|
            0 <= j < purge_matching(es, p).len() ==> !glob_match(
                (#[trigger] purge_matching(es, p)[j]).0,
                p,
            ),
    decreases es.len(),
{
    if es.len() > 0 {
        lemma_purge_no_survivor(es.drop_first(), p);
        let r = purge_matching(es, p);
        let rd = purge_matching(es.drop_first(), p);
        if !glob_match(es[0].0, p) {
            assert forall|j: int| 0 <= j < r.len() implies !glob_match((#[trigger] r[j]).0, p) by {
                if j > 0 {
                    assert(r[j] == rd[j - 1]);
                }
            }
        }
    }
}

impl CacheStore {
    /// The store's structural invariant: keys are distinct in both maps,
    /// and the negative map does not exceed its capacity.
    pub open spec fn wf(&self) -> bool {
        &&& distinct_keys(self@.entries)
        &&& distinct_keys(self@.entries_404)
        &&& self@.entries_404.len() <= self@.capacity_404
    }

    /// A fresh, empty store with the given negative-cache capacity.
    pub fn new(cache_404_capacity: usize) -> (r: CacheStore)
        ensures
            r.wf(),
            r@.entries =~= Seq::<EntryView>::empty(),
            r@.entries_404 =~= Seq::<EntryView>::empty(),
            r@.capacity_404 == cache_404_capacity as nat,
    {
        CacheStore { store: Vec::new(), store_404: Vec::new(), cache_404_capacity }
    }

    /// The negative-cache capacity the store was created with.
    pub fn capacity_404(&self) -> (r: usize)
        ensures
            r as nat == self@.capacity_404,
    {
        self.cache_404_capacity
    }
}

/// First index bound to `key` in the vector, if any.
fn find_key_index(v: &Vec<(String, CachedResponse)>, key: &str) -> (r: Option<usize>)
    ensures
        match r {
            Option::Some(i) => i < v.len() && view_entries(v@)[i as int].0 == key@ && (forall|j: int|
                0 <= j < i ==> (#[trigger] view_entries(v@)[j]).0 != key@),
            Option::None => forall|j: int|
                0 <= j < v@.len() ==> (#[trigger] view_entries(v@)[j]).0 != key@,
        },
{
    let mut i: usize = 0;
    while i < v.len()
        invariant
            i <= v.len(),
            forall|j: int| 0 <= j < i ==> (#[trigger] view_entries(v@)[j]).0 != key@,
        decreases v.len() - i,
    {
        if crate::path_matcher::str_eq(v[i].0.as_str(), key) {
            return Some(i);
        }
        i = i + 1;
    }
    None
}

impl CacheStore {
    /// The positive entry stored under `key`, as an equal copy.
    pub fn get(&self, key: &str) -> (r: Option<CachedResponse>)
        ensures
            match r {
                Option::Some(c) => lookup_key(self@.entries, key@) == Some(c@),
                Option::None => lookup_key(self@.entries, key@) is None,
            },
    {
        match find_key_index(&self.store, key) {
            Option::Some(i) => {
                proof {
                    lemma_lookup_found(self@.entries, key@, i as int);
                }
                Some(self.store[i].1.duplicate())
            },
            Option::None => {
                proof {
                    lemma_lookup_absent(self@.entries, key@);
                }
                None
            },
        }
    }

    /// The negative (404) entry stored under `key`, as an equal copy.
    pub fn get_404(&self, key: &str) -> (r: Option<CachedResponse>)
        ensures
            match r {
                Option::Some(c) => lookup_key(self@.entries_404, key@) == Some(c@),
                Option::None => lookup_key(self@.entries_404, key@) is None,
            },
    {
        match find_key_index(&self.store_404, key) {
            Option::Some(i) => {
                proof {
                    lemma_lookup_found(self@.entries_404, key@, i as int);
                }
                Some(self.store_404[i].1.duplicate())
            },
            Option::None => {
                proof {
                    lemma_lookup_absent(self@.entries_404, key@);
                }
                None
            },
        }
    }

    /// Insert or replace a positive entry.
    pub fn set(&mut self, key: String, response: CachedResponse)
        requires
            old(self).wf(),
        ensures
            final(self).wf(),
            final(self)@.entries == insert_entry(old(self)@.entries, key@, response@),
            final(self)@.entries_404 == old(self)@.entries_404,
            final(self)@.capacity_404 == old(self)@.capacity_404,
    {
        let ghost old_entries = self@.entries;
        match find_key_index(&self.store, key.as_str()) {
            Option::Some(i) => {
                self.store.remove(i);
                proof {
                    assert forall|j: int|
                        0 <= j < old_entries.len() && j != i as int implies (
                    #[trigger] old_entries[j]).0 != key@ by {
                        if j > i as int {
                            assert(old_entries[i as int].0 != old_entries[j].0);
                        }
                    }
                    lemma_remove_key_first(old_entries, key@, i as int);
                    assert(view_entries(self.store@) =~= old_entries.remove(i as int));
                }
            },
            Option::None => {
                proof {
                    lemma_remove_key_absent(old_entries, key@);
                    assert(view_entries(self.store@) =~= old_entries);
                }
            },
        }
        proof {
            lemma_remove_key_distinct(old_entries, key@);
            lemma_remove_key_spares(old_entries, key@);
        }
        self.store.push((key, response));
        proof {
            let r = view_entries(self.store@);
            let rk = remove_key(old_entries, key@);
            assert(r =~= insert_entry(old_entries, key@, response@));
            assert forall|a: int, b: int| 0 <= a < b < r.len() implies (#[trigger] r[a]).0 != (
            #[trigger] r[b]).0 by {
                assert(r[a] == rk[a]);
                if b < r.len() - 1 {
                    assert(r[b] == rk[b]);
                } else {
                    assert(rk[a].0 != key@);
                }
            }
        }
    }

    /// Insert a negative (404) entry. A no-op when the negative cache is
    /// disabled; otherwise the key moves to the back of the FIFO and the
    /// oldest entry is evicted when the capacity is exceeded.
    pub fn set_404(&mut self, key: String, response: CachedResponse)
        requires
            old(self).wf(),
        ensures
            final(self).wf(),
            final(self)@.entries == old(self)@.entries,
            final(self)@.entries_404 == set_404_step(
                old(self)@.entries_404,
                key@,
                response@,
                old(self)@.capacity_404,
            ),
            final(self)@.capacity_404 == old(self)@.capacity_404,
    {
        if self.cache_404_capacity == 0 {
            return ;
        }
        let ghost old_entries = self@.entries_404;
        match find_key_index(&self.store_404, key.as_str()) {
            Option::Some(i) => {
                self.store_404.remove(i);
                proof {
                    assert forall|j: int|
                        0 <= j < old_entries.len() && j != i as int implies (
                    #[trigger] old_entries[j]).0 != key@ by {
                        if j > i as int {
                            assert(old_entries[i as int].0 != old_entries[j].0);
                        }
                    }
                    lemma_remove_key_first(old_entries, key@, i as int);
                    assert(view_entries(self.store_404@) =~= old_entries.remove(i as int));
                }
            },
            Option::None => {
                proof {
                    lemma_remove_key_absent(old_entries, key@);
                    assert(view_entries(self.store_404@) =~= old_entries);
                }
            },
        }
        proof {
            lemma_remove_key_distinct(old_entries, key@);
            lemma_remove_key_spares(old_entries, key@);
        }
        self.store_404.push((key, response));
        let ghost added = insert_entry(old_entries, key@, response@);
        let ghost rk = remove_key(old_entries, key@);
        proof {
            assert(view_entries(self.store_404@) =~= added);
            assert forall|a: int, b: int| 0 <= a < b < added.len() implies (#[trigger] added[a]).0
                != (#[trigger] added[b]).0 by {
                assert(added[a] == rk[a]);
                if b < added.len() - 1 {
                    assert(added[b] == rk[b]);
                } else {
                    assert(rk[a].0 != key@);
                }
            }
        }
        if self.store_404.len() > self.cache_404_capacity {
            self.store_404.remove(0);
            proof {
                assert(added.len() == self.cache_404_capacity + 1);
                assert(view_entries(self.store_404@) =~= added.remove(0));
                assert(added.remove(0) =~= added.skip(added.len() - self.cache_404_capacity));
                let dropped = added.remove(0);
                assert forall|a: int, b: int| 0 <= a < b < dropped.len() implies (
                #[trigger] dropped[a]).0 != (#[trigger] dropped[b]).0 by {
                    assert(dropped[a] == added[a + 1]);
                    assert(dropped[b] == added[b + 1]);
                }
            }
        }
    }

    /// Empty both maps.
    pub fn clear(&mut self)
        ensures
            final(self).wf(),
            final(self)@.entries =~= Seq::<EntryView>::empty(),
            final(self)@.entries_404 =~= Seq::<EntryView>::empty(),
            final(self)@.capacity_404 == old(self)@.capacity_404,
    {
        self.store.clear();
        self.store_404.clear();
    }

    /// Remove every entry, in either map, whose key matches the wildcard
    /// pattern. The pattern is applied to the full cache key, without
    /// method parsing.
    pub fn clear_by_pattern(&mut self, pattern: &str)
        requires
            old(self).wf(),
        ensures
            final(self).wf(),
            final(self)@.entries == purge_matching(old(self)@.entries, pattern@),
            final(self)@.entries_404 == purge_matching(old(self)@.entries_404, pattern@),
            final(self)@.capacity_404 == old(self)@.capacity_404,
    {
        purge_vec(&mut self.store, pattern);
        purge_vec(&mut self.store_404, pattern);
        proof {
            lemma_purge_distinct(old(self)@.entries, pattern@);
            lemma_purge_distinct(old(self)@.entries_404, pattern@);
            lemma_purge_props(old(self)@.entries_404, pattern@);
        }
    }

    /// The number of positive entries.
    pub fn size(&self) -> (r: usize)
        ensures
            r == self@.entries.len(),
    {
        self.store.len()
    }

    /// The number of negative (404) entries.
    pub fn size_404(&self) -> (r: usize)
        ensures
            r == self@.entries_404.len(),
    {
        self.store_404.len()
    }
}

/// Remove from the vector every entry whose key matches the pattern.
fn purge_vec(v: &mut Vec<(String, CachedResponse)>, pattern: &str)
    ensures
        view_entries(final(v)@) == purge_matching(view_entries(old(v)@), pattern@),
{
    let ghost orig = view_entries(v@);
    proof {
        assert(orig.skip(0) =~= orig);
        assert(orig.take(0) + purge_matching(orig.skip(0), pattern@) =~= purge_matching(
            orig,
            pattern@,
        ));
    }
    let mut i: usize = 0;
    while i < v.len()
        invariant
            i <= v.len(),
            purge_matching(orig, pattern@) == view_entries(v@).take(i as int) + purge_matching(
                view_entries(v@).skip(i as int),
                pattern@,
            ),
        decreases v.len() - i,
    {
        let ghost cur = view_entries(v@);
        if matches_path_pattern(v[i].0.as_str(), pattern) {
            v.remove(i);
            proof {
                let nxt = view_entries(v@);
                assert(nxt =~= cur.remove(i as int));
                assert(cur.skip(i as int)[0] == cur[i as int]);
                assert(glob_match(cur.skip(i as int)[0].0, pattern@));
                assert(cur.skip(i as int).drop_first() =~= nxt.skip(i as int));
                assert(nxt.take(i as int) =~= cur.take(i as int));
            }
        } else {
            proof {
                assert(cur.skip(i as int)[0] == cur[i as int]);
                assert(!glob_match(cur.skip(i as int)[0].0, pattern@));
                assert(cur.skip(i as int).drop_first() =~= cur.skip(i + 1 as int));
                assert(cur.take(i as int) + purge_matching(cur.skip(i as int), pattern@)
                    =~= cur.take(i + 1 as int) + purge_matching(cur.skip(i + 1 as int), pattern@));
            }
            i = i + 1;
        }
    }
    proof {
        let cur = view_entries(v@);
        assert(cur.skip(i as int).len() == 0);
        assert(cur.take(i as int) =~= cur);
        assert(purge_matching(orig, pattern@) =~= cur + purge_matching(
            cur.skip(i as int),
            pattern@,
        ));
    }
}

/// Check whether a cache key matches a wildcard pattern. Unlike the
/// request matcher, no method prefix is parsed: the pattern applies to
/// the literal key, which itself embeds the method.
pub fn matches_pattern(key: &str, pattern: &str) -> (r: bool)
    ensures
        r == glob_match(key@, pattern@),
{
    matches_path_pattern(key, pattern)
}

/// The effect of one refresh message on the store's contents.
pub open spec fn spec_apply_message(sv: StoreView, m: MessageView) -> StoreView {
    match m {
        MessageView::All => StoreView {
            entries: Seq::empty(),
            entries_404: Seq::empty(),
            capacity_404: sv.capacity_404,
        },
        MessageView::Pattern(p) => StoreView {
            entries: purge_matching(sv.entries, p),
            entries_404: purge_matching(sv.entries_404, p),
            capacity_404: sv.capacity_404,
        },
    }
}

/// The effect of a sequence of refresh messages, applied in order.
pub open spec fn spec_apply_messages(sv: StoreView, ms: Seq<MessageView>) -> StoreView
    decreases ms.len(),
{
    if ms.len() == 0 {
        sv
    } else {
        spec_apply_messages(spec_apply_message(sv, ms[0]), ms.drop_first())
    }
}

/// Apply one refresh message to the store: `All` clears everything,
/// `Pattern` clears the matching keys.
pub fn apply_refresh_message(store: &mut CacheStore, message: &RefreshMessage)
    requires
        old(store).wf(),
    ensures
        final(store).wf(),
        final(store)@ == spec_apply_message(old(store)@, message@),
{
    match message {
        RefreshMessage::All => {
            store.clear();
            proof {
                assert(store@ =~= spec_apply_message(old(store)@, message@));
            }
        },
        RefreshMessage::Pattern(p) => {
            store.clear_by_pattern(p.as_str());
            proof {
                assert(store@ =~= spec_apply_message(old(store)@, message@));
            }
        },
    }
}


proof fn lemma_lookup_push_other(es: Seq<EntryView>, e: EntryView, k2: Seq<char>)
    requires
        e.0 != k2,
    ensures
        lookup_key(es.push(e), k2) == lookup_key(es, k2),
    decreases es.len(),
{
    if es.len() == 0 {
        assert(es.push(e)[0] == e);
        assert(es.push(e).drop_first() =~= Seq::<EntryView>::empty());
    } else {
        assert(es.push(e)[0] == es[0]);
        assert(es.push(e).drop_first() =~= es.drop_first().push(e));
        lemma_lookup_push_other(es.drop_first(), e, k2);
    }
}

proof fn lemma_lookup_remove_other(es: Seq<EntryView>, k: Seq<char>, k2: Seq<char>)
    requires
        k2 != k,
    ensures
        lookup_key(remove_key(es, k), k2) == lookup_key(es, k2),
    decreases es.len(),
{
    if es.len() > 0 {
        lemma_lookup_remove_other(es.drop_first(), k, k2);
        if es[0].0 != k {
            let r = seq![es[0]] + remove_key(es.drop_first(), k);
            assert(r[0] == es[0]);
            assert(r.drop_first() =~= remove_key(es.drop_first(), k));
        }
    }
}

/// What a retrieval sees after an insertion: the inserted key is bound to
/// the new response, and every other key keeps its old binding. A miss
/// that is filled is therefore served on the next hit, unchanged.
pub proof fn lemma_insert_then_lookup(
    es: Seq<EntryView>,
    k: Seq<char>,
    v: ResponseView,
    k2: Seq<char>,
)
    ensures
        lookup_key(insert_entry(es, k, v), k) == Some(v),
        k2 != k ==> lookup_key(insert_entry(es, k, v), k2) == lookup_key(es, k2),
{
    let rk = remove_key(es, k);
    lemma_remove_key_spares(es, k);
    let pushed = rk.push((k, v));
    assert(pushed[rk.len() as int].0 == k);
    assert forall|j: int| 0 <= j < rk.len() implies (#[trigger] pushed[j]).0 != k by {
        assert(pushed[j] == rk[j]);
    }
    lemma_lookup_found(pushed, k, rk.len() as int);
    if k2 != k {
        lemma_lookup_push_other(rk, (k, v), k2);
        lemma_lookup_remove_other(es, k, k2);
    }
}

/// The fold of successive negative-cache insertions, in order.
pub open spec fn spec_set_404_all(
    es: Seq<EntryView>,
    ops: Seq<EntryView>,
    cap: nat,
) -> Seq<EntryView>
    decreases ops.len(),
{
    if ops.len() == 0 {
        es
    } else {
        spec_set_404_all(set_404_step(es, ops[0].0, ops[0].1, cap), ops.drop_first(), cap)
    }
}

proof fn lemma_last_up_to_concat(s: Seq<EntryView>, t: Seq<EntryView>, cap: nat)
    ensures
        last_up_to(last_up_to(s, cap) + t, cap) == last_up_to(s + t, cap),
{
    let u = last_up_to(s, cap);
    if s.len() <= cap {
        assert(u + t =~= s + t);
    } else {
        let d = s.len() - cap;
        assert(u + t =~= (s + t).skip(d as int));
        if t.len() == 0 {
            assert(u + t =~= u);
            assert(s + t =~= s);
            assert(last_up_to(u, cap) =~= u);
            assert(last_up_to(s + t, cap) =~= u);
        } else {
            assert(last_up_to(u + t, cap) =~= last_up_to(s + t, cap));
        }
    }
}

proof fn lemma_set_404_all_general(es: Seq<EntryView>, ops: Seq<EntryView>, cap: nat)
    requires
        cap > 0,
        distinct_keys(ops),
        forall|i: int, j: int|
            0 <= i < es.len() && 0 <= j < ops.len() ==> (#[trigger] es[i]).0 != (
            #[trigger] ops[j]).0,
        es.len() <= cap,
    ensures
        spec_set_404_all(es, ops, cap) == last_up_to(es + ops, cap),
    decreases ops.len(),
{
    if ops.len() == 0 {
        assert(es + ops =~= es);
    } else {
        let op0 = ops[0];
        assert forall|i: int| 0 <= i < es.len() implies (#[trigger] es[i]).0 != op0.0 by {}
        lemma_remove_key_absent(es, op0.0);
        let pushed = es.push(op0);
        assert(insert_entry(es, op0.0, op0.1) =~= pushed);
        let stepped = set_404_step(es, ops[0].0, ops[0].1, cap);
        assert(stepped == last_up_to(pushed, cap));
        assert(distinct_keys(ops.drop_first()));
        assert forall|i: int, j: int|
            0 <= i < stepped.len() && 0 <= j < ops.drop_first().len() implies (
        #[trigger] stepped[i]).0 != (#[trigger] ops.drop_first()[j]).0 by {
            let d: int = if pushed.len() <= cap {
                0
            } else {
                pushed.len() - cap
            };
            assert(stepped[i] == pushed[d + i]);
            if d + i < es.len() {
                assert(es[d + i].0 != ops[j + 1].0);
            } else {
                assert(pushed[d + i] == op0);
                assert(ops[0].0 != ops[j + 1].0);
            }
        }
        lemma_set_404_all_general(stepped, ops.drop_first(), cap);
        lemma_last_up_to_concat(pushed, ops.drop_first(), cap);
        assert(pushed + ops.drop_first() =~= es + ops);
        assert(stepped + ops.drop_first() =~= last_up_to(pushed, cap) + ops.drop_first());
    }
}

/// Inserting responses under `n` distinct keys into an empty negative
/// cache of positive capacity `c` leaves `min(n, c)` entries: the last
/// `c` insertions, in insertion order.
pub proof fn lemma_set_404_fifo(ops: Seq<EntryView>, cap: nat)
    requires
        cap > 0,
        distinct_keys(ops),
    ensures
        spec_set_404_all(Seq::empty(), ops, cap) == last_up_to(ops, cap),
        spec_set_404_all(Seq::empty(), ops, cap).len() == if ops.len() <= cap {
            ops.len()
        } else {
            cap
        },
{
    lemma_set_404_all_general(Seq::empty(), ops, cap);
    assert(Seq::empty() + ops =~= ops);
}

/// Refresh messages act serially: handling one batch after another is the
/// same as handling the concatenated batch in send order.
pub proof fn lemma_refresh_serial(sv: StoreView, a: Seq<MessageView>, b: Seq<MessageView>)
    ensures
        spec_apply_messages(spec_apply_messages(sv, a), b) == spec_apply_messages(sv, a + b),
    decreases a.len(),
{
    if a.len() == 0 {
        assert(a + b =~= b);
    } else {
        assert((a + b)[0] == a[0]);
        assert((a + b).drop_first() =~= a.drop_first() + b);
        lemma_refresh_serial(spec_apply_message(sv, a[0]), a.drop_first(), b);
    }
}

} // verus!

