//! Serving view queries: the entries of a view, filtered by key,
//! ordered by encoded key bytes, and capped.
//!
//! The index is computed from the live documents at the moment of the
//! query, so every policy serves data consistent with all committed
//! transactions.  An entry is `(source id, key bytes, value bytes)`;
//! entries order by key bytes first and source id second.

use vstd::prelude::*;

verus! {

use crate::codec::{lex_lt, lex_less, lemma_lex_irrefl};
use crate::document::Document;
use crate::error::Error;
use crate::model::{DocModel, OpModel, ops_model, spec_apply_ops, delete_ops, find_doc, lemma_find_doc};
use crate::query::{QueryKey, Range, Bound, Sort, AccessPolicy};
use crate::view::{Serialized, MappedDocument};
use crate::engine::{Db, ViewMapper, docs_model, pairs_model, cols_model_of};
use crate::transaction::{Transaction, Operation};

/// A view entry in the model: the source document's id, the encoded
/// key, and the value bytes.
pub struct EntryModel {
    /// The id of the document that emitted the entry.
    pub source: u64,
    /// The encoded key.
    pub key: Seq<u8>,
    /// The stored value bytes.
    pub value: Seq<u8>,
}

impl Serialized {
    /// This entry as the model sees it.
    pub open spec fn model(&self) -> EntryModel {
        EntryModel { source: self.source, key: self.key@, value: self.value@ }
    }
}

/// The ghost form of an entry vector.
pub open spec fn entries_model(s: Seq<Serialized>) -> Seq<EntryModel> {
    s.map_values(|e: Serialized| e.model())
}

/// The entries one document contributes to a view, as query entries.
pub open spec fn doc_entries<M: ViewMapper>(m: M, v: int, d: DocModel) -> Seq<EntryModel> {
    m.entries_spec(v, d).map_values(
        |p: (Seq<u8>, Seq<u8>)| EntryModel { source: d.header.id, key: p.0, value: p.1 },
    )
}

/// Whether an encoded key lies inside a byte range.
pub open spec fn key_in_range(key: Seq<u8>, range: Range<Vec<u8>>) -> bool {
    (match range.start {
        Bound::Unbounded => true,
        Bound::Included(s) => !lex_lt(key, s@),
        Bound::Excluded(s) => lex_lt(s@, key),
    }) && (match range.end {
        Bound::Unbounded => true,
        Bound::Included(e) => !lex_lt(e@, key),
        Bound::Excluded(e) => lex_lt(key, e@),
    })
}

/// Whether an entry's key passes the filter.
pub open spec fn entry_matches(e: EntryModel, filter: Option<QueryKey<Vec<u8>>>) -> bool {
    match filter {
        None => true,
        Some(QueryKey::Matches(k)) => e.key == k@,
        Some(QueryKey::Range(r)) => key_in_range(e.key, r),
        Some(QueryKey::Multiple(ks)) => exists|i: int| 0 <= i < ks@.len() && (#[trigger] ks@[i])@ == e.key,
    }
}

/// The entries of a sequence that pass the filter, in order.
pub open spec fn filter_entries(es: Seq<EntryModel>, filter: Option<QueryKey<Vec<u8>>>) -> Seq<
    EntryModel,
>
    decreases es.len(),
{
    if es.len() == 0 {
        Seq::empty()
    } else if entry_matches(es.last(), filter) {
        filter_entries(es.drop_last(), filter).push(es.last())
    } else {
        filter_entries(es.drop_last(), filter)
    }
}

/// Every matching entry of every document, documents in stored order.
pub open spec fn view_entries<M: ViewMapper>(
    m: M,
    v: int,
    docs: Seq<DocModel>,
    filter: Option<QueryKey<Vec<u8>>>,
) -> Seq<EntryModel>
    decreases docs.len(),
{
    if docs.len() == 0 {
        Seq::empty()
    } else {
        view_entries(m, v, docs.drop_last(), filter) + filter_entries(
            doc_entries(m, v, docs.last()),
            filter,
        )
    }
}

/// The strict query order on entries: key bytes first, source second.
pub open spec fn entry_lt(a: EntryModel, b: EntryModel) -> bool {
    lex_lt(a.key, b.key) || (a.key == b.key && a.source < b.source)
}

/// Ascending order: no later entry comes strictly before an earlier
/// one.
pub open spec fn entries_sorted(es: Seq<EntryModel>) -> bool {
    forall|i: int, j: int| 0 <= i < j < es.len() ==> !entry_lt(#[trigger] es[j], #[trigger] es[i])
}

/// Inserts an entry into a sorted sequence, after any equal entries.
pub open spec fn ins_sorted(e: EntryModel, s: Seq<EntryModel>) -> Seq<EntryModel>
    decreases s.len(),
{
    if s.len() == 0 {
        seq![e]
    } else if entry_lt(e, s[0]) {
        seq![e] + s
    } else {
        seq![s[0]] + ins_sorted(e, s.drop_first())
    }
}

/// Insertion sort in the model: the canonical ascending arrangement
/// of a sequence of entries.
pub open spec fn sort_entries(s: Seq<EntryModel>) -> Seq<EntryModel>
    decreases s.len(),
{
    if s.len() == 0 {
        Seq::empty()
    } else {
        ins_sorted(s.last(), sort_entries(s.drop_last()))
    }
}

/// Where the scan of an insertion lands, the recursive insertion puts
/// the element.
proof fn lemma_ins_sorted_at(e: EntryModel, s: Seq<EntryModel>, p: int)
    requires
        0 <= p <= s.len(),
        forall|j: int| 0 <= j < p ==> !entry_lt(e, #[trigger] s[j]),
        p == s.len() || entry_lt(e, s[p]),
    ensures
        ins_sorted(e, s) == s.insert(p, e),
    decreases p,
{
    if p == 0 {
        if s.len() == 0 {
            assert(ins_sorted(e, s) =~= s.insert(0, e));
        } else {
            assert(seq![e] + s =~= s.insert(0, e));
        }
    } else {
        assert(!entry_lt(e, s[0]));
        assert(forall|j: int| 0 <= j < p - 1 ==> !entry_lt(e, #[trigger] s.drop_first()[j]));
        assert(p - 1 == s.drop_first().len() || entry_lt(e, s.drop_first()[p - 1]));
        lemma_ins_sorted_at(e, s.drop_first(), p - 1);
        assert(seq![s[0]] + s.drop_first().insert(p - 1, e) =~= s.insert(p, e));
    }
}

/// Compares two concrete entries in query order.
fn entry_less(a: &Serialized, b: &Serialized) -> (r: bool)
    ensures
        r == entry_lt(a.model(), b.model()),
{
    if lex_less(a.key.as_slice(), b.key.as_slice()) {
        true
    } else if lex_less(b.key.as_slice(), a.key.as_slice()) {
        false
    } else {
        proof {
            lemma_lex_connex_keys(a.key@, b.key@);
        }
        a.source < b.source
    }
}

/// Two byte strings neither of which precedes the other are equal.
proof fn lemma_lex_connex_keys(a: Seq<u8>, b: Seq<u8>)
    requires
        !lex_lt(a, b),
        !lex_lt(b, a),
    ensures
        a == b,
    decreases a.len(),
{
    if a.len() == 0 {
        assert(a =~= b);
    } else {
        assert(a[0] == b[0]);
        lemma_lex_connex_keys(a.skip(1), b.skip(1));
        assert(a =~= seq![a[0]] + a.skip(1));
        assert(b =~= seq![b[0]] + b.skip(1));
    }
}

/// Copies an entry; the copy has the same model.
fn copy_serialized(e: &Serialized) -> (r: Serialized)
    ensures
        r.model() == e.model(),
{
    Serialized {
        source: e.source,
        key: vstd::slice::slice_to_vec(e.key.as_slice()),
        value: vstd::slice::slice_to_vec(e.value.as_slice()),
    }
}

/// Tests a concrete entry's key against the filter.
#[verifier::loop_isolation(false)]
fn entry_passes(entry: &Serialized, filter: &Option<QueryKey<Vec<u8>>>) -> (r: bool)
    ensures
        r == entry_matches(entry.model(), *filter),
{
    match filter {
        None => true,
        Some(QueryKey::Matches(k)) => crate::engine::bytes_equal(&entry.key, k),
        Some(QueryKey::Range(range)) => {
            let start_ok = match &range.start {
                Bound::Unbounded => true,
                Bound::Included(s) => !lex_less(entry.key.as_slice(), s.as_slice()),
                Bound::Excluded(s) => lex_less(s.as_slice(), entry.key.as_slice()),
            };
            let end_ok = match &range.end {
                Bound::Unbounded => true,
                Bound::Included(e) => !lex_less(e.as_slice(), entry.key.as_slice()),
                Bound::Excluded(e) => lex_less(entry.key.as_slice(), e.as_slice()),
            };
            start_ok && end_ok
        },
        Some(QueryKey::Multiple(ks)) => {
            let n = ks.len();
            for i in 0..n
                invariant
                    forall|j: int| 0 <= j < i ==> (#[trigger] ks@[j])@ != entry.key@,
            {
                if crate::engine::bytes_equal(&entry.key, &ks[i]) {
                    return true;
                }
            }
            false
        },
    }
}

/// Finds the first position whose entry comes strictly after the one
/// to insert.
#[verifier::loop_isolation(false)]
fn find_ins_pos(out: &Vec<Serialized>, entry: &Serialized) -> (p: usize)
    ensures
        p <= out@.len(),
        forall|j: int| 0 <= j < p ==> !entry_lt(entry.model(), entries_model(out@)[j]),
        p == out@.len() || entry_lt(entry.model(), entries_model(out@)[p as int]),
{
    let n = out.len();
    for i in 0..n
        invariant
            forall|j: int| 0 <= j < i ==> !entry_lt(entry.model(), entries_model(out@)[j]),
    {
        proof {
            assert(entries_model(out@)[i as int] == out@[i as int].model());
        }
        if entry_less(entry, &out[i]) {
            return i;
        }
    }
    n
}

/// Inserts an entry into an ascending vector, after any equal
/// entries, exactly as the model's `ins_sorted` does.
fn exec_ins_sorted(out: &mut Vec<Serialized>, entry: Serialized)
    ensures
        entries_model(final(out)@) == ins_sorted(entry.model(), entries_model(old(out)@)),
{
    let ghost sm = entries_model(out@);
    let ghost em = entry.model();
    let p = find_ins_pos(out, &entry);
    proof {
        lemma_ins_sorted_at(em, sm, p as int);
    }
    out.insert(p, entry);
    proof {
        assert(entries_model(out@) =~= sm.insert(p as int, em));
    }
}

proof fn lemma_entry_lt_trans(a: EntryModel, b: EntryModel, c: EntryModel)
    requires
        entry_lt(a, b),
        entry_lt(b, c),
    ensures
        entry_lt(a, c),
{
    if lex_lt(a.key, b.key) && lex_lt(b.key, c.key) {
        crate::codec::lemma_lex_trans(a.key, b.key, c.key);
    }
}

proof fn lemma_ins_sorted_props(e: EntryModel, s: Seq<EntryModel>)
    requires
        entries_sorted(s),
    ensures
        entries_sorted(ins_sorted(e, s)),
        ins_sorted(e, s).len() == s.len() + 1,
        forall|i: int|
            0 <= i < ins_sorted(e, s).len() ==> (#[trigger] ins_sorted(e, s)[i]) == e
                || s.contains(ins_sorted(e, s)[i]),
    decreases s.len(),
{
    let r = ins_sorted(e, s);
    if s.len() == 0 {
    } else if entry_lt(e, s[0]) {
        assert(forall|i: int| 0 <= i < s.len() ==> r[i + 1] == s[i]);
        assert forall|i: int, j: int| 0 <= i < j < r.len() implies !entry_lt(r[j], r[i]) by {
            if i == 0 {
                if entry_lt(r[j], e) {
                    lemma_entry_lt_trans(r[j], e, s[0]);
                    if j == 1 {
                        lemma_lex_irrefl(s[0].key);
                    } else {
                        assert(!entry_lt(s[j - 1], s[0]));
                    }
                }
            }
        }
        assert(forall|i: int| 0 <= i < r.len() ==> r[i] == e || s.contains(#[trigger] r[i]));
    } else {
        let rest = ins_sorted(e, s.drop_first());
        assert forall|i: int, j: int|
            0 <= i < j < s.drop_first().len() implies !entry_lt(
            #[trigger] s.drop_first()[j],
            #[trigger] s.drop_first()[i],
        ) by {
            assert(s.drop_first()[j] == s[j + 1]);
            assert(s.drop_first()[i] == s[i + 1]);
        }
        lemma_ins_sorted_props(e, s.drop_first());
        assert(forall|i: int| 0 <= i < rest.len() ==> r[i + 1] == rest[i]);
        assert forall|i: int, j: int| 0 <= i < j < r.len() implies !entry_lt(r[j], r[i]) by {
            if i == 0 {
                let x = r[j];
                assert(x == rest[j - 1]);
                if x == e {
                    assert(!entry_lt(e, s[0]));
                } else {
                    let k = choose|k: int| 0 <= k < s.drop_first().len() && s.drop_first()[k] == x;
                    assert(x == s[k + 1]);
                    assert(!entry_lt(s[k + 1], s[0]));
                }
            } else {
                assert(!entry_lt(rest[j - 1], rest[i - 1]));
            }
        }
        assert forall|i: int| 0 <= i < r.len() implies (#[trigger] r[i]) == e || s.contains(
            r[i],
        ) by {
            if i > 0 {
                if r[i] != e {
                    let k = choose|k: int|
                        0 <= k < s.drop_first().len() && s.drop_first()[k] == r[i];
                    assert(s[k + 1] == r[i]);
                }
            }
        }
    }
}

/// The canonical arrangement is ascending.
pub proof fn lemma_sort_entries_sorted(s: Seq<EntryModel>)
    ensures
        entries_sorted(sort_entries(s)),
        sort_entries(s).len() == s.len(),
    decreases s.len(),
{
    if s.len() > 0 {
        lemma_sort_entries_sorted(s.drop_last());
        lemma_ins_sorted_props(s.last(), sort_entries(s.drop_last()));
    }
}

/// A filtered sequence holds only entries of the sequence it came
/// from.
proof fn lemma_filter_entries_elements(es: Seq<EntryModel>, filter: Option<QueryKey<Vec<u8>>>)
    ensures
        forall|k: int|
            0 <= k < filter_entries(es, filter).len() ==> es.contains(
                #[trigger] filter_entries(es, filter)[k],
            ),
    decreases es.len(),
{
    if es.len() > 0 {
        let front = es.drop_last();
        lemma_filter_entries_elements(front, filter);
        let fe = filter_entries(es, filter);
        let ff = filter_entries(front, filter);
        assert forall|k: int| 0 <= k < fe.len() implies es.contains(#[trigger] fe[k]) by {
            if k < ff.len() {
                assert(fe[k] == ff[k]);
                let j = choose|j: int| 0 <= j < front.len() && front[j] == ff[k];
                assert(es[j] == ff[k]);
            } else {
                assert(fe[k] == es[es.len() - 1]);
            }
        }
    }
}

/// Every entry a view serves names the id of one of the documents it
/// was computed from.
pub proof fn lemma_view_entries_sources<M: ViewMapper>(
    m: M,
    v: int,
    docs: Seq<DocModel>,
    filter: Option<QueryKey<Vec<u8>>>,
)
    ensures
        forall|k: int|
            0 <= k < view_entries(m, v, docs, filter).len() ==> exists|j: int|
                0 <= j < docs.len() && (#[trigger] view_entries(m, v, docs, filter)[k]).source
                    == docs[j].header.id,
    decreases docs.len(),
{
    if docs.len() > 0 {
        let front = docs.drop_last();
        lemma_view_entries_sources(m, v, front, filter);
        let ve = view_entries(m, v, docs, filter);
        let prefix = view_entries(m, v, front, filter);
        let de = doc_entries(m, v, docs.last());
        let tail = filter_entries(de, filter);
        lemma_filter_entries_elements(de, filter);
        assert forall|k: int| 0 <= k < ve.len() implies exists|j: int|
            0 <= j < docs.len() && (#[trigger] ve[k]).source == docs[j].header.id by {
            if k < prefix.len() {
                assert(ve[k] == prefix[k]);
                let j = choose|j: int|
                    0 <= j < front.len() && prefix[k].source == front[j].header.id;
                assert(ve[k].source == docs[j].header.id);
            } else {
                assert(ve[k] == tail[k - prefix.len()]);
                assert(de.contains(tail[k - prefix.len()]));
                let t = choose|t: int| 0 <= t < de.len() && de[t] == tail[k - prefix.len()];
                assert(de[t].source == docs.last().header.id);
                assert(ve[k].source == docs[docs.len() - 1].header.id);
            }
        }
    }
}

/// The canonical arrangement holds only entries of the sequence it
/// arranged.
pub proof fn lemma_sort_entries_elements(s: Seq<EntryModel>)
    ensures
        forall|k: int|
            0 <= k < sort_entries(s).len() ==> s.contains(#[trigger] sort_entries(s)[k]),
    decreases s.len(),
{
    if s.len() > 0 {
        let front = s.drop_last();
        lemma_sort_entries_elements(front);
        lemma_sort_entries_sorted(front);
        lemma_ins_sorted_props(s.last(), sort_entries(front));
        let sorted = sort_entries(s);
        assert forall|k: int| 0 <= k < sorted.len() implies s.contains(#[trigger] sorted[k]) by {
            let x = sorted[k];
            if x == s.last() {
                assert(s[s.len() - 1] == x);
            } else {
                assert(sort_entries(front).contains(x));
                let j = choose|j: int| 0 <= j < sort_entries(front).len() && sort_entries(
                    front,
                )[j] == x;
                assert(front.contains(x));
                let j2 = choose|j2: int| 0 <= j2 < front.len() && front[j2] == x;
                assert(s[j2] == x);
            }
        }
    }
}

impl<M: ViewMapper> Db<M> {
    /// Answers a view query: the entries of every live document of
    /// the view's collection that pass the key filter, ordered by
    /// encoded key bytes with ties broken by source id, capped at
    /// `limit`.
    ///
    /// The entries are computed from the documents as committed at
    /// the moment of the call, so under every access policy a query
    /// observes every transaction committed before it.
    #[verifier::loop_isolation(false)]
    #[verifier::rlimit(50)]
    pub fn query(
        &self,
        view: usize,
        key: Option<QueryKey<Vec<u8>>>,
        order: Sort,
        limit: Option<usize>,
        access_policy: AccessPolicy,
    ) -> (r: Result<Vec<Serialized>, Error>)
        requires
            self.inv(),
        ensures
            ({
                if view as int >= self.views@.len() {
                    r matches Err(e) && e is Database
                } else {
                    let ci = self.views@[view as int].collection as int;
                    let sorted = sort_entries(
                        view_entries(self.mapper, view as int, self.cols_model()[ci].docs, key),
                    );
                    let ordered = if order is Ascending {
                        sorted
                    } else {
                        sorted.reverse()
                    };
                    let capped = match limit {
                        Some(l) => if l < ordered.len() {
                            ordered.take(l as int)
                        } else {
                            ordered
                        },
                        None => ordered,
                    };
                    r matches Ok(es) && entries_model(es@) == capped
                }
            }),
    {
        if view >= self.views.len() {
            return Err(Error::Database("no view with this index is registered".to_owned()));
        }
        let ci = self.views[view].collection;
        proof {
            assert(cols_model_of(self.collections@)[ci as int] == self.collections@[ci as int].model());
        }
        let docs = &self.collections[ci].documents;
        let ghost dm = docs_model(docs@);
        let mut out: Vec<Serialized> = Vec::new();
        let n = docs.len();
        for i in 0..n
            invariant
                entries_model(out@) == sort_entries(
                    view_entries(self.mapper, view as int, dm.take(i as int), key),
                ),
        {
            proof {
                assert(dm[i as int] == docs@[i as int].model());
            }
            let entries = self.mapper.entries(view, &docs[i]);
            let ghost de = doc_entries(self.mapper, view as int, dm[i as int]);
            let source = docs[i].header.id;
            let en = entries.len();
            for j in 0..en
                invariant
                    en == entries@.len(),
                    pairs_model(entries@) == self.mapper.entries_spec(
                        view as int,
                        dm[i as int],
                    ),
                    source == dm[i as int].header.id,
                    de == doc_entries(self.mapper, view as int, dm[i as int]),
                    entries_model(out@) == sort_entries(
                        view_entries(self.mapper, view as int, dm.take(i as int), key)
                            + filter_entries(de.take(j as int), key),
                    ),
            {
                let ghost processed = view_entries(self.mapper, view as int, dm.take(i as int), key)
                    + filter_entries(de.take(j as int), key);
                proof {
                    assert(pairs_model(entries@)[j as int] == (entries@[j as int].0@, entries@[j as int].1@));
                    assert(de[j as int] == (EntryModel {
                        source,
                        key: entries@[j as int].0@,
                        value: entries@[j as int].1@,
                    }));
                    assert(de.take(j + 1).drop_last() =~= de.take(j as int));
                    assert(de.take(j + 1).last() == de[j as int]);
                }
                let candidate = Serialized {
                    source,
                    key: vstd::slice::slice_to_vec(entries[j].0.as_slice()),
                    value: vstd::slice::slice_to_vec(entries[j].1.as_slice()),
                };
                if entry_passes(&candidate, &key) {
                    exec_ins_sorted(&mut out, candidate);
                    proof {
                        let appended = processed.push(de[j as int]);
                        assert(view_entries(self.mapper, view as int, dm.take(i as int), key)
                            + filter_entries(de.take(j + 1), key) =~= appended);
                        assert(appended.drop_last() =~= processed);
                        assert(appended.last() == de[j as int]);
                    }
                } else {
                    proof {
                        assert(filter_entries(de.take(j + 1), key) =~= filter_entries(
                            de.take(j as int),
                            key,
                        ));
                    }
                }
            }
            proof {
                assert(de.take(en as int) =~= de);
                assert(dm.take(i + 1).drop_last() =~= dm.take(i as int));
                assert(dm.take(i + 1).last() == dm[i as int]);
            }
        }
        proof {
            assert(dm.take(n as int) =~= dm);
        }
        let mut ordered = match order {
            Sort::Ascending => out,
            Sort::Descending => {
                let mut rev: Vec<Serialized> = Vec::new();
                let m = out.len();
                for j in 0..m
                    invariant
                        m == out@.len(),
                        rev@.len() == j,
                        forall|k: int|
                            0 <= k < j ==> (#[trigger] rev@[k]).model() == out@[m - 1 - k].model(),
                {
                    let copied = copy_serialized(&out[m - 1 - j]);
                    rev.push(copied);
                }
                proof {
                    assert(entries_model(rev@) =~= entries_model(out@).reverse());
                }
                rev
            },
        };
        if let Some(l) = limit {
            if l < ordered.len() {
                let ghost before = ordered@;
                ordered.truncate(l);
                proof {
                    assert(entries_model(ordered@) =~= entries_model(before).take(l as int));
                }
            }
        }
        Ok(ordered)
    }
}

/// Whether some entry of the document passes the filter.
pub open spec fn doc_hit<M: ViewMapper>(
    m: M,
    v: int,
    d: DocModel,
    filter: Option<QueryKey<Vec<u8>>>,
) -> bool {
    exists|j: int|
        0 <= j < doc_entries(m, v, d).len() && entry_matches(
            #[trigger] doc_entries(m, v, d)[j],
            filter,
        )
}

/// The documents of the sequence with a matching entry, in order.
pub open spec fn docs_hit<M: ViewMapper>(
    m: M,
    v: int,
    docs: Seq<DocModel>,
    filter: Option<QueryKey<Vec<u8>>>,
) -> Seq<DocModel>
    decreases docs.len(),
{
    if docs.len() == 0 {
        Seq::empty()
    } else if doc_hit(m, v, docs.last(), filter) {
        docs_hit(m, v, docs.drop_last(), filter).push(docs.last())
    } else {
        docs_hit(m, v, docs.drop_last(), filter)
    }
}

/// Gathers one delete operation for every document with a matching
/// entry.
#[verifier::rlimit(100)]
#[verifier::loop_isolation(false)]
fn collect_deletes<M: ViewMapper>(
    mapper: &M,
    view: usize,
    docs: &Vec<Document>,
    key: &Option<QueryKey<Vec<u8>>>,
) -> (r: (Transaction, u64))
    ensures
        ops_model(r.0.operations@) == delete_ops(
            docs_hit(*mapper, view as int, docs_model(docs@), *key),
        ),
        r.1 == docs_hit(*mapper, view as int, docs_model(docs@), *key).len(),
{
    let ghost dm = docs_model(docs@);
    let mut tx = Transaction::new();
    let mut count: u64 = 0;
    let n = docs.len();
    for i in 0..n
        invariant
            count == docs_hit(*mapper, view as int, dm.take(i as int), *key).len(),
            count <= i,
            ops_model(tx.operations@) == delete_ops(
                docs_hit(*mapper, view as int, dm.take(i as int), *key),
            ),
    {
        proof {
            assert(dm[i as int] == docs@[i as int].model());
            assert(dm.take(i + 1).drop_last() =~= dm.take(i as int));
            assert(dm.take(i + 1).last() == dm[i as int]);
        }
        let entries = mapper.entries(view, &docs[i]);
        let source = docs[i].header.id;
        let ghost de = doc_entries(*mapper, view as int, dm[i as int]);
        let mut hit = false;
        let en = entries.len();
        for j in 0..en
            invariant
                en == entries@.len(),
                pairs_model(entries@) == mapper.entries_spec(view as int, dm[i as int]),
                source == dm[i as int].header.id,
                de == doc_entries(*mapper, view as int, dm[i as int]),
                hit ==> doc_hit(*mapper, view as int, dm[i as int], *key),
                !hit ==> forall|x: int| 0 <= x < j ==> !entry_matches(#[trigger] de[x], *key),
        {
            proof {
                assert(pairs_model(entries@)[j as int] == (entries@[j as int].0@, entries@[j as int].1@));
                assert(de[j as int] == (EntryModel {
                    source,
                    key: entries@[j as int].0@,
                    value: entries@[j as int].1@,
                }));
            }
            if !hit {
                let candidate = Serialized {
                    source,
                    key: vstd::slice::slice_to_vec(entries[j].0.as_slice()),
                    value: vstd::slice::slice_to_vec(entries[j].1.as_slice()),
                };
                if entry_passes(&candidate, key) {
                    hit = true;
                }
            }
        }
        let ghost hit_before = docs_hit(*mapper, view as int, dm.take(i as int), *key);
        if hit {
            let header = crate::engine::copy_header(&docs[i].header);
            let ghost hm = header.model();
            let ghost prev_ops = tx.operations@;
            tx.push(Operation::Delete { header });
            count = count + 1;
            proof {
                assert(hm == dm[i as int].header);
                assert(forall|k: int|
                    0 <= k < prev_ops.len() ==> ops_model(tx.operations@)[k]
                        == #[trigger] ops_model(prev_ops)[k]);
                assert(ops_model(tx.operations@).len() == prev_ops.len() + 1);
                assert(delete_ops(hit_before.push(dm[i as int])).len() == hit_before.len() + 1);
                assert(ops_model(prev_ops) == delete_ops(hit_before));
                assert(prev_ops.len() == hit_before.len());
                assert(ops_model(tx.operations@)[prev_ops.len() as int] == (OpModel::Delete {
                    header: hm,
                }));
                assert(forall|k: int|
                    0 <= k < hit_before.len() ==> delete_ops(hit_before.push(dm[i as int]))[k]
                        == #[trigger] delete_ops(hit_before)[k]);
                assert(delete_ops(hit_before.push(dm[i as int]))[hit_before.len() as int]
                    == (OpModel::Delete { header: dm[i as int].header }));
                assert forall|k: int|
                    0 <= k < ops_model(tx.operations@).len() implies ops_model(tx.operations@)[k]
                    == delete_ops(hit_before.push(dm[i as int]))[k] by {
                    if k < prev_ops.len() {
                        assert(ops_model(tx.operations@)[k] == ops_model(prev_ops)[k]);
                        assert(delete_ops(hit_before.push(dm[i as int]))[k] == delete_ops(
                            hit_before,
                        )[k]);
                    }
                }
                assert(ops_model(tx.operations@) =~= delete_ops(hit_before.push(dm[i as int])));
            }
        } else {
            proof {
                assert(!doc_hit(*mapper, view as int, dm[i as int], *key));
            }
        }
    }
    proof {
        assert(dm.take(n as int) =~= dm);
    }
    (tx, count)
}

/// The documents a filter hits are live documents in stored order:
/// each is one of the originals, and their ids still ascend.
pub proof fn lemma_docs_hit_props<M: ViewMapper>(
    m: M,
    v: int,
    docs: Seq<DocModel>,
    filter: Option<QueryKey<Vec<u8>>>,
)
    requires
        crate::model::docs_sorted(docs),
    ensures
        forall|k: int|
            0 <= k < docs_hit(m, v, docs, filter).len() ==> docs.contains(
                #[trigger] docs_hit(m, v, docs, filter)[k],
            ),
        crate::model::docs_sorted(docs_hit(m, v, docs, filter)),
    decreases docs.len(),
{
    if docs.len() > 0 {
        let front = docs.drop_last();
        assert forall|i: int, j: int|
            0 <= i < j < front.len() implies (#[trigger] front[i]).header.id < (
        #[trigger] front[j]).header.id by {
            assert(front[i] == docs[i]);
            assert(front[j] == docs[j]);
        }
        lemma_docs_hit_props(m, v, front, filter);
        let hit = docs_hit(m, v, docs, filter);
        let hf = docs_hit(m, v, front, filter);
        assert forall|k: int| 0 <= k < hit.len() implies docs.contains(#[trigger] hit[k]) by {
            if k < hf.len() {
                assert(hit[k] == hf[k]);
                let j = choose|j: int| 0 <= j < front.len() && front[j] == hf[k];
                assert(docs[j] == hf[k]);
            } else {
                assert(hit[k] == docs[docs.len() - 1]);
            }
        }
        assert forall|i: int, j: int|
            0 <= i < j < hit.len() implies (#[trigger] hit[i]).header.id < (
        #[trigger] hit[j]).header.id by {
            if j < hf.len() {
                assert(hf[i].header.id < hf[j].header.id);
            } else {
                assert(hit[j] == docs[docs.len() - 1]);
                assert(hit[i] == hf[i]);
                let oi = choose|oi: int| 0 <= oi < front.len() && front[oi] == hf[i];
                assert(docs[oi].header.id < docs[docs.len() - 1].header.id);
            }
        }
    }
}

impl<M: ViewMapper> Db<M> {
    /// Deletes every document that a view maps under a matching key,
    /// in one atomic transaction, and reports how many went.  On a
    /// registered view the deletion is owed: every collected delete
    /// names a live document at its stored revision, and removing
    /// documents cannot put a shared key into a unique view.
    #[verifier::rlimit(100)]
    #[verifier::spinoff_prover]
    #[verifier::loop_isolation(false)]
    pub fn delete_docs(
        &mut self,
        view: usize,
        key: Option<QueryKey<Vec<u8>>>,
        access_policy: AccessPolicy,
        timestamp_millis: i64,
    ) -> (r: Result<u64, Error>)
        requires
            old(self).inv(),
            old(self).executed@.len() < u64::MAX,
        ensures
            final(self).inv(),
            final(self).views == old(self).views,
            final(self).mapper == old(self).mapper,
            r is Err ==> *final(self) == *old(self),
            r is Err <==> (view as int) >= old(self).views@.len(),
            r matches Err(e) ==> e is Database,
            ({
                let ci = old(self).views@[view as int].collection as int;
                let hit = docs_hit(
                    old(self).mapper,
                    view as int,
                    old(self).cols_model()[ci].docs,
                    key,
                );
                match r {
                    Ok(count) => count == hit.len() && (count == 0 ==> *final(self) == *old(self))
                        && (count > 0 ==> (spec_apply_ops(
                        old(self).cols_model(),
                        delete_ops(hit),
                    ) matches Ok(pair) && final(self).cols_model() == pair.0
                        && final(self).executed@.len() == old(self).executed@.len() + 1)),
                    Err(_) => true,
                }
            }),
    {
        if view >= self.views.len() {
            return Err(Error::Database("no view with this index is registered".to_owned()));
        }
        let ci = self.views[view].collection;
        proof {
            assert(cols_model_of(self.collections@)[ci as int] == self.collections@[ci as int].model());
        }
        let gathered = collect_deletes(
            &self.mapper,
            view,
            &self.collections[ci].documents,
            &key,
        );
        let (tx, count) = gathered;
        if count == 0 {
            return Ok(0);
        }
        proof {
            let m0 = self.cols_model();
            let dm = m0[ci as int].docs;
            let hit = docs_hit(self.mapper, view as int, dm, key);
            assert(crate::model::col_wf(m0[ci as int]));
            lemma_docs_hit_props(self.mapper, view as int, dm, key);
            assert forall|k: int|
                0 <= k < hit.len() implies (#[trigger] hit[k]).header.collection == m0[ci as int].name by {
                let j = choose|j: int| 0 <= j < dm.len() && dm[j] == hit[k];
            }
            assert forall|k1: int, k2: int|
                0 <= k1 < k2 < hit.len() implies (#[trigger] hit[k1]).header.id != (
            #[trigger] hit[k2]).header.id by {
                assert(hit[k1].header.id < hit[k2].header.id);
            }
            crate::model::lemma_spec_delete_batch(m0, ci as int, hit);
            crate::engine::lemma_delete_ops_preserve_unique(self.mapper, self.views@, m0, hit);
        }
        match self.apply_transaction(&tx, timestamp_millis) {
            Ok(_) => Ok(count),
            Err(e) => {
                proof {
                    assert(false);
                }
                Err(e)
            },
        }
    }
}


impl<M: ViewMapper> Db<M> {
    /// Answers a view query and joins each entry with the live
    /// document that emitted it, in the same order the query serves.
    #[verifier::loop_isolation(false)]
    #[verifier::rlimit(100)]
    pub fn query_with_docs(
        &self,
        view: usize,
        key: Option<QueryKey<Vec<u8>>>,
        order: Sort,
        limit: Option<usize>,
        access_policy: AccessPolicy,
    ) -> (r: Result<Vec<MappedDocument<Vec<u8>, Vec<u8>>>, Error>)
        requires
            self.inv(),
        ensures
            view as int >= self.views@.len() ==> (r matches Err(e) && e is Database),
            ({
                if (view as int) < self.views@.len() {
                    let ci = self.views@[view as int].collection as int;
                    let docs = self.cols_model()[ci].docs;
                    let sorted = sort_entries(
                        view_entries(self.mapper, view as int, docs, key),
                    );
                    let ordered = if order is Ascending {
                        sorted
                    } else {
                        sorted.reverse()
                    };
                    let capped = match limit {
                        Some(l) => if l < ordered.len() {
                            ordered.take(l as int)
                        } else {
                            ordered
                        },
                        None => ordered,
                    };
                    r matches Ok(rs) && rs@.len() == capped.len() && (forall|i: int|
                        0 <= i < capped.len() ==> (#[trigger] rs@[i]).key@ == capped[i].key
                            && rs@[i].value@ == capped[i].value && find_doc(
                            docs,
                            capped[i].source,
                        ) >= 0 && rs@[i].document.model() == docs[find_doc(
                            docs,
                            capped[i].source,
                        )])
                } else {
                    true
                }
            }),
    {
        let entries = match self.query(view, key, order, limit, access_policy) {
            Ok(entries) => entries,
            Err(e) => {
                return Err(e);
            },
        };
        let ci = self.views[view].collection;
        proof {
            assert(cols_model_of(self.collections@)[ci as int] == self.collections@[ci as int].model());
        }
        let ghost dm = docs_model(self.collections@[ci as int].documents@);
        let ghost em = entries_model(entries@);
        proof {
            let ve = view_entries(self.mapper, view as int, dm, key);
            let sorted = sort_entries(ve);
            lemma_sort_entries_elements(ve);
            lemma_view_entries_sources(self.mapper, view as int, dm, key);
            assert forall|k: int| 0 <= k < em.len() implies find_doc(
                dm,
                (#[trigger] em[k]).source,
            ) >= 0 by {
                let si = if order is Ascending {
                    k
                } else {
                    sorted.len() - 1 - k
                };
                assert(em[k] == sorted[si]);
                assert(ve.contains(sorted[si]));
                let j = choose|j: int| 0 <= j < ve.len() && ve[j] == sorted[si];
                let dj = choose|dj: int|
                    0 <= dj < dm.len() && ve[j].source == dm[dj].header.id;
                lemma_find_doc(dm, em[k].source);
                if find_doc(dm, em[k].source) == -1 {
                    assert(dm[dj].header.id != em[k].source);
                }
            }
        }
        let mut out: Vec<MappedDocument<Vec<u8>, Vec<u8>>> = Vec::new();
        let n = entries.len();
        for i in 0..n
            invariant
                out@.len() == i,
                forall|j: int|
                    0 <= j < i ==> (#[trigger] out@[j]).key@ == em[j].key && out@[j].value@
                        == em[j].value && out@[j].document.model() == dm[find_doc(
                        dm,
                        em[j].source,
                    )],
        {
            proof {
                assert(em[i as int] == entries@[i as int].model());
            }
            let di = match crate::engine::exec_find_doc(
                &self.collections[ci].documents,
                entries[i].source,
            ) {
                Some(di) => di,
                None => {
                    proof {
                        assert(false);
                    }
                    return Err(Error::Database("an entry names no live document".to_owned()));
                },
            };
            proof {
                assert(dm[di as int] == self.collections@[ci as int].documents@[di as int].model());
            }
            let document = crate::engine::copy_document(&self.collections[ci].documents[di]);
            let entry = MappedDocument {
                document,
                key: vstd::slice::slice_to_vec(entries[i].key.as_slice()),
                value: vstd::slice::slice_to_vec(entries[i].value.as_slice()),
            };
            out.push(entry);
        }
        Ok(out)
    }
}

} // verus!
