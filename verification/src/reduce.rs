//! Reducing a view's entries: folding the values of the matching
//! entries into one value, globally or per distinct key.
//!
//! A reducer is a pure function of the values alone, supplied by the
//! schema; the engine feeds it the values of the matching entries in
//! key order.

use vstd::prelude::*;

verus! {

use crate::codec::{be_bytes, be_val, encode_be, decode_be, lemma_pow256_values,
    lemma_be_val_bound};
use crate::engine::{Db, ViewMapper, bytes_equal};
use crate::error::Error;
use crate::index::{EntryModel, entries_model, sort_entries, view_entries};
use crate::query::{QueryKey, Sort, AccessPolicy};
use crate::view::MappedValue;

/// The ghost form of a vector of value blobs.
pub open spec fn values_model(s: Seq<Vec<u8>>) -> Seq<Seq<u8>> {
    s.map_values(|v: Vec<u8>| v@)
}

/// One distinct key and the values the matching entries hold for it.
#[verifier::ext_equal]
pub struct GroupModel {
    /// The key the values share.
    pub key: Seq<u8>,
    /// The values, in the entries' order.
    pub values: Seq<Seq<u8>>,
}

/// Consecutive entries with equal keys folded into groups, in order.
pub open spec fn grouped(es: Seq<EntryModel>) -> Seq<GroupModel>
    decreases es.len(),
{
    if es.len() == 0 {
        Seq::empty()
    } else {
        let rest = grouped(es.drop_last());
        let e = es.last();
        if rest.len() > 0 && rest.last().key == e.key {
            rest.update(
                rest.len() - 1,
                GroupModel { key: e.key, values: rest.last().values.push(e.value) },
            )
        } else {
            rest.push(GroupModel { key: e.key, values: seq![e.value] })
        }
    }
}

/// A pure fold over a view's values, supplied by the schema.
pub trait ViewReducer {
    /// What the fold of these values is.
    spec fn reduce_spec(&self, view: int, values: Seq<Seq<u8>>) -> Seq<u8>;

    /// Computes the fold of these values.
    fn reduce(&self, view: usize, values: &Vec<Vec<u8>>) -> (r: Vec<u8>)
        ensures
            r@ == self.reduce_spec(view as int, values_model(values@)),
    ;
}

/// The running total of values read as eight-byte big-endian
/// numbers, kept modulo the eight-byte range; a value of any other
/// width counts as zero.
pub open spec fn sum_values(values: Seq<Seq<u8>>) -> nat
    decreases values.len(),
{
    if values.len() == 0 {
        0
    } else {
        (sum_values(values.drop_last()) + (if values.last().len() == 8 {
            be_val(values.last())
        } else {
            0
        })) % 0x10000000000000000
    }
}

/// A reducer that adds values up as eight-byte big-endian numbers.
pub struct SumReducer {
}

impl ViewReducer for SumReducer {
    open spec fn reduce_spec(&self, view: int, values: Seq<Seq<u8>>) -> Seq<u8> {
        be_bytes(sum_values(values), 8)
    }

    fn reduce(&self, view: usize, values: &Vec<Vec<u8>>) -> (r: Vec<u8>) {
        let n = values.len();
        let mut acc: u64 = 0;
        for i in 0..n
            invariant
                n == values@.len(),
                acc as nat == sum_values(values_model(values@).take(i as int)),
        {
            proof {
                lemma_pow256_values();
                assert(values_model(values@).take(i + 1).drop_last() =~= values_model(
                    values@,
                ).take(i as int));
                assert(values_model(values@).take(i + 1).last() == values@[i as int]@);
                lemma_be_val_bound(values@[i as int]@);
                vstd::arithmetic::div_mod::lemma_mod_bound(
                    (acc as nat + (if values@[i as int]@.len() == 8 {
                        be_val(values@[i as int]@)
                    } else {
                        0
                    })) as int,
                    0x10000000000000000,
                );
            }
            let v: u64 = if values[i].len() == 8 {
                let wide = decode_be(values[i].as_slice());
                wide as u64
            } else {
                0
            };
            let sum: u128 = (acc as u128) + (v as u128);
            acc = (sum % 0x10000000000000000u128) as u64;
        }
        proof {
            assert(values_model(values@).take(n as int) =~= values_model(values@));
        }
        encode_be(acc as u128, 8)
    }
}

impl<M: ViewMapper> Db<M> {
    /// Reduces the values of every entry matching the filter into one
    /// value, in key order.
    pub fn reduce<R: ViewReducer>(
        &self,
        reducer: &R,
        view: usize,
        key: Option<QueryKey<Vec<u8>>>,
        access_policy: AccessPolicy,
    ) -> (r: Result<Vec<u8>, Error>)
        requires
            self.inv(),
        ensures
            view as int >= self.views@.len() ==> (r matches Err(e) && e is Database),
            ({
                if (view as int) < self.views@.len() {
                    let ci = self.views@[view as int].collection as int;
                    let sorted = sort_entries(
                        view_entries(self.mapper, view as int, self.cols_model()[ci].docs, key),
                    );
                    r matches Ok(v) && v@ == reducer.reduce_spec(
                        view as int,
                        sorted.map_values(|e: EntryModel| e.value),
                    )
                } else {
                    true
                }
            }),
    {
        let entries = match self.query(view, key, Sort::Ascending, None, access_policy) {
            Ok(entries) => entries,
            Err(e) => {
                return Err(e);
            },
        };
        let mut values: Vec<Vec<u8>> = Vec::new();
        let n = entries.len();
        for i in 0..n
            invariant
                n == entries@.len(),
                values@.len() == i,
                forall|j: int| 0 <= j < i ==> (#[trigger] values@[j])@ == entries@[j].value@,
        {
            let value = vstd::slice::slice_to_vec(entries[i].value.as_slice());
            values.push(value);
        }
        let folded = reducer.reduce(view, &values);
        proof {
            assert(values_model(values@) =~= entries_model(entries@).map_values(
                |e: EntryModel| e.value,
            ));
        }
        Ok(folded)
    }

    /// Reduces the values of the matching entries by each distinct
    /// key, keys in ascending order.
    #[verifier::loop_isolation(false)]
    #[verifier::rlimit(100)]
    pub fn reduce_grouped<R: ViewReducer>(
        &self,
        reducer: &R,
        view: usize,
        key: Option<QueryKey<Vec<u8>>>,
        access_policy: AccessPolicy,
    ) -> (r: Result<Vec<MappedValue<Vec<u8>, Vec<u8>>>, Error>)
        requires
            self.inv(),
        ensures
            view as int >= self.views@.len() ==> (r matches Err(e) && e is Database),
            ({
                if (view as int) < self.views@.len() {
                    let ci = self.views@[view as int].collection as int;
                    let sorted = sort_entries(
                        view_entries(self.mapper, view as int, self.cols_model()[ci].docs, key),
                    );
                    let groups = grouped(sorted);
                    r matches Ok(rs) && rs@.len() == groups.len() && (forall|i: int|
                        0 <= i < groups.len() ==> (#[trigger] rs@[i]).key@ == groups[i].key
                            && rs@[i].value@ == reducer.reduce_spec(view as int, groups[i].values))
                } else {
                    true
                }
            }),
    {
        let entries = match self.query(view, key, Sort::Ascending, None, access_policy) {
            Ok(entries) => entries,
            Err(e) => {
                return Err(e);
            },
        };
        let ghost em = entries_model(entries@);
        let mut keys: Vec<Vec<u8>> = Vec::new();
        let mut groups: Vec<Vec<Vec<u8>>> = Vec::new();
        let n = entries.len();
        for i in 0..n
            invariant
                n == entries@.len(),
                em == entries_model(entries@),
                keys@.len() == groups@.len(),
                keys@.len() == grouped(em.take(i as int)).len(),
                forall|j: int|
                    0 <= j < keys@.len() ==> (#[trigger] keys@[j])@ == grouped(
                        em.take(i as int),
                    )[j].key && values_model(groups@[j]@) == grouped(em.take(i as int))[j].values,
        {
            let ghost before = grouped(em.take(i as int));
            proof {
                assert(em.take(i + 1).drop_last() =~= em.take(i as int));
                assert(em.take(i + 1).last() == em[i as int]);
                assert(em[i as int] == entries@[i as int].model());
            }
            let value = vstd::slice::slice_to_vec(entries[i].value.as_slice());
            let glen = groups.len();
            if glen > 0 && bytes_equal(&keys[glen - 1], &entries[i].key) {
                let ghost prev_values = groups@[glen - 1]@;
                let ghost prev_groups = groups@;
                let group = &mut groups[glen - 1];
                group.push(value);
                proof {
                    assert(values_model(groups@[glen - 1]@) =~= values_model(prev_values).push(
                        em[i as int].value,
                    ));
                    assert(grouped(em.take(i + 1)) =~= before.update(
                        before.len() - 1,
                        (GroupModel {
                            key: em[i as int].key,
                            values: before.last().values.push(em[i as int].value),
                        }),
                    ));
                    assert(forall|j: int|
                        0 <= j < glen - 1 ==> groups@[j] == #[trigger] prev_groups[j]);
                    assert forall|j: int|
                        0 <= j < keys@.len() implies (#[trigger] keys@[j])@ == grouped(
                        em.take(i + 1),
                    )[j].key && values_model(groups@[j]@) == grouped(
                        em.take(i + 1),
                    )[j].values by {
                        if j < glen - 1 {
                            assert(grouped(em.take(i + 1))[j] == before[j]);
                            assert(groups@[j] == prev_groups[j]);
                        }
                    }
                }
            } else {
                proof {
                    if glen > 0 {
                        assert(keys@[glen - 1]@ == before.last().key);
                    }
                    assert(grouped(em.take(i + 1)) =~= before.push(
                        (GroupModel { key: em[i as int].key, values: seq![em[i as int].value] }),
                    ));
                }
                let new_key = vstd::slice::slice_to_vec(entries[i].key.as_slice());
                let mut new_group: Vec<Vec<u8>> = Vec::new();
                new_group.push(value);
                proof {
                    assert(values_model(new_group@) =~= seq![em[i as int].value]);
                }
                keys.push(new_key);
                groups.push(new_group);
            }
        }
        proof {
            assert(em.take(n as int) =~= em);
        }
        let mut out: Vec<MappedValue<Vec<u8>, Vec<u8>>> = Vec::new();
        let m = keys.len();
        for g in 0..m
            invariant
                m == keys@.len() == groups@.len(),
                out@.len() == g,
                forall|j: int|
                    0 <= j < g ==> (#[trigger] out@[j]).key@ == grouped(em)[j].key
                        && out@[j].value@ == reducer.reduce_spec(view as int, grouped(em)[j].values),
        {
            let folded = reducer.reduce(view, &groups[g]);
            let entry = MappedValue {
                key: vstd::slice::slice_to_vec(keys[g].as_slice()),
                value: folded,
            };
            out.push(entry);
        }
        Ok(out)
    }
}

} // verus!
