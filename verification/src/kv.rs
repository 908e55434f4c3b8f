//! The key-value sidestore: a namespaced register of byte and
//! numeric values with conditional writes and expiration.
//!
//! Every operation that expiration can affect takes the wall-clock
//! time as an argument; an entry at or past its expiration is
//! invisible and is treated exactly as an absent key.

use vstd::prelude::*;

verus! {

/// A stored value: an opaque blob or a signed number.
#[derive(Debug, Clone)]
pub enum Value {
    /// An opaque byte blob.
    Bytes(Vec<u8>),
    /// A signed number that can be incremented atomically.
    Numeric(i64),
}

/// A stored value in the model.
#[verifier::ext_equal]
pub enum ValueModel {
    /// An opaque byte blob.
    Bytes(Seq<u8>),
    /// A signed number.
    Numeric(i64),
}

impl Value {
    /// This value as the model sees it.
    pub open spec fn model(&self) -> ValueModel {
        match self {
            Value::Bytes(b) => ValueModel::Bytes(b@),
            Value::Numeric(n) => ValueModel::Numeric(*n),
        }
    }
}

/// A condition a set may put on the key's prior state.
#[derive(Debug, Clone, Copy, PartialEq, Eq, Structural)]
pub enum KeyCheck {
    /// The set succeeds only if the key already holds a live value.
    OnlyIfPresent,
    /// The set succeeds only if the key holds no live value.
    OnlyIfVacant,
}

/// What the sidestore reports when an operation is refused.
#[derive(Debug, Clone, Copy, PartialEq, Eq, Structural)]
pub enum KvError {
    /// The stored value and the operation disagree about its kind.
    ValueKindMismatch,
    /// A set that demanded a live value found none.
    MissingKey,
    /// A set that demanded a vacant key found a live value.
    KeyExists,
}

/// One register of the sidestore.
#[derive(Debug, Clone)]
pub struct Entry {
    /// The namespace the key lives in.
    pub namespace: String,
    /// The key within the namespace.
    pub key: String,
    /// The stored value.
    pub value: Value,
    /// When the entry stops being visible, if ever.
    pub expiration: Option<i64>,
}

/// One register in the model.
#[verifier::ext_equal]
pub struct EntryModel {
    /// The namespace the key lives in.
    pub namespace: Seq<char>,
    /// The key within the namespace.
    pub key: Seq<char>,
    /// The stored value.
    pub value: ValueModel,
    /// When the entry stops being visible, if ever.
    pub expiration: Option<i64>,
}

impl Entry {
    /// This register as the model sees it.
    pub open spec fn model(&self) -> EntryModel {
        EntryModel {
            namespace: self.namespace@,
            key: self.key@,
            value: self.value.model(),
            expiration: self.expiration,
        }
    }
}

/// The ghost form of the register vector.
pub open spec fn entries_model(s: Seq<Entry>) -> Seq<EntryModel> {
    s.map_values(|e: Entry| e.model())
}

/// Whether an entry is visible at this wall-clock time.
pub open spec fn live(e: EntryModel, now: i64) -> bool {
    match e.expiration {
        None => true,
        Some(at) => now < at,
    }
}

/// Where the register of this namespace and key stands, or `-1`.
pub open spec fn find_entry(s: Seq<EntryModel>, namespace: Seq<char>, key: Seq<char>) -> int
    decreases s.len(),
{
    if s.len() == 0 {
        -1
    } else if s[0].namespace == namespace && s[0].key == key {
        0
    } else {
        let rest = find_entry(s.drop_first(), namespace, key);
        if rest < 0 {
            -1
        } else {
            rest + 1
        }
    }
}

/// Where `find_entry` points: at the first register under that name,
/// or nowhere exactly when the name is unused.
pub proof fn lemma_find_entry(s: Seq<EntryModel>, namespace: Seq<char>, key: Seq<char>)
    ensures
        find_entry(s, namespace, key) == -1 ==> forall|i: int|
            0 <= i < s.len() ==> !((#[trigger] s[i]).namespace == namespace && s[i].key == key),
        find_entry(s, namespace, key) >= 0 ==> 0 <= find_entry(s, namespace, key) < s.len() && s[
            find_entry(s, namespace, key)
        ].namespace == namespace && s[find_entry(s, namespace, key)].key == key && forall|j: int|
            0 <= j < find_entry(s, namespace, key) ==> !((#[trigger] s[j]).namespace == namespace
                && s[j].key == key),
    decreases s.len(),
{
    if s.len() > 0 && !(s[0].namespace == namespace && s[0].key == key) {
        lemma_find_entry(s.drop_first(), namespace, key);
        let r = find_entry(s, namespace, key);
        if r == -1 {
            assert forall|i: int|
                0 <= i < s.len() implies !((#[trigger] s[i]).namespace == namespace && s[i].key
                == key) by {
                if i > 0 {
                    assert(s.drop_first()[i - 1] == s[i]);
                }
            }
        } else {
            assert(s.drop_first()[r - 1] == s[r]);
            assert forall|j: int|
                0 <= j < r implies !((#[trigger] s[j]).namespace == namespace && s[j].key
                == key) by {
                if j > 0 {
                    assert(s.drop_first()[j - 1] == s[j]);
                }
            }
        }
    }
}


/// The entries still visible at this time, in order.
pub open spec fn kept_live(s: Seq<EntryModel>, now: i64) -> Seq<EntryModel>
    decreases s.len(),
{
    if s.len() == 0 {
        Seq::empty()
    } else if live(s.last(), now) {
        kept_live(s.drop_last(), now).push(s.last())
    } else {
        kept_live(s.drop_last(), now)
    }
}

/// Reclamation keeps names unique: every kept entry is one of the
/// original entries, so distinct names stay distinct.
proof fn lemma_kept_live_unique(s: Seq<EntryModel>, now: i64)
    requires
        forall|i: int, j: int|
            0 <= i < j < s.len() ==> !((#[trigger] s[i]).namespace == (#[trigger] s[j]).namespace
                && s[i].key == s[j].key),
    ensures
        forall|k: int|
            0 <= k < kept_live(s, now).len() ==> exists|j: int|
                0 <= j < s.len() && (#[trigger] kept_live(s, now)[k]) == s[j],
        forall|a: int, b: int|
            0 <= a < b < kept_live(s, now).len() ==> !((#[trigger] kept_live(
                s,
                now,
            )[a]).namespace == (#[trigger] kept_live(s, now)[b]).namespace && kept_live(
                s,
                now,
            )[a].key == kept_live(s, now)[b].key),
    decreases s.len(),
{
    if s.len() > 0 {
        let front = s.drop_last();
        assert(forall|i: int, j: int|
            0 <= i < j < front.len() ==> !(((#[trigger] front[i]).namespace
                == (#[trigger] front[j]).namespace) && front[i].key == front[j].key));
        lemma_kept_live_unique(front, now);
        let kept = kept_live(s, now);
        assert forall|k: int| 0 <= k < kept.len() implies exists|j: int|
            0 <= j < s.len() && (#[trigger] kept[k]) == s[j] by {
            if live(s.last(), now) && k == kept.len() - 1 {
                assert(kept[k] == s[s.len() - 1]);
            } else {
                let j = choose|j: int| 0 <= j < front.len() && kept_live(front, now)[k] == front[j];
                assert(kept[k] == front[j]);
                assert(front[j] == s[j]);
            }
        }
        if live(s.last(), now) {
            assert forall|a: int, b: int|
                0 <= a < b < kept.len() implies !((#[trigger] kept[a]).namespace == (
            #[trigger] kept[b]).namespace && kept[a].key == kept[b].key) by {
                if b == kept.len() - 1 {
                    let j = choose|j: int|
                        0 <= j < front.len() && kept_live(front, now)[a] == front[j];
                    assert(kept[a] == s[j]);
                    assert(kept[b] == s[s.len() - 1]);
                    assert(!(s[j].namespace == s[s.len() - 1].namespace && s[j].key == s[s.len()
                        - 1].key));
                }
            }
        }
    }
}

/// Saturating signed addition.
pub open spec fn sat_add(a: i64, b: i64) -> i64 {
    if a + b > i64::MAX {
        i64::MAX
    } else if a + b < i64::MIN {
        i64::MIN
    } else {
        (a + b) as i64
    }
}

/// Wrapping signed addition.
pub open spec fn wrap_add(a: i64, b: i64) -> i64 {
    if a + b > i64::MAX {
        (a + b - 0x10000000000000000) as i64
    } else if a + b < i64::MIN {
        (a + b + 0x10000000000000000) as i64
    } else {
        (a + b) as i64
    }
}

/// The namespaced register store of one database.
#[derive(Debug, Clone)]
pub struct KvStore {
    /// The registers, each name held at most once.
    pub entries: Vec<Entry>,
}

impl KvStore {
    /// This store as the model sees it.
    pub open spec fn model(&self) -> Seq<EntryModel> {
        entries_model(self.entries@)
    }

    /// Each (namespace, key) name is held by at most one register.
    pub open spec fn inv(&self) -> bool {
        forall|i: int, j: int|
            0 <= i < j < self.model().len() ==> !((#[trigger] self.model()[i]).namespace == (
            #[trigger] self.model()[j]).namespace && self.model()[i].key == self.model()[j].key)
    }

    /// An empty store.
    pub fn new() -> (r: KvStore)
        ensures
            r.inv(),
            r.model().len() == 0,
    {
        let r = KvStore { entries: Vec::new() };
        proof {
            assert(r.model() =~= Seq::<EntryModel>::empty());
        }
        r
    }

    /// Finds the register under this name.
    fn find(&self, namespace: &str, key: &str) -> (r: Option<usize>)
        ensures
            match r {
                Some(i) => (i as int) < self.model().len() && find_entry(
                    self.model(),
                    namespace@,
                    key@,
                ) == i as int,
                None => find_entry(self.model(), namespace@, key@) == -1,
            },
    {
        let n = self.entries.len();
        for i in 0..n
            invariant
                n == self.entries@.len(),
                forall|j: int|
                    0 <= j < i ==> !((#[trigger] self.model()[j]).namespace == namespace@
                        && self.model()[j].key == key@),
        {
            proof {
                assert(self.model()[i as int] == self.entries@[i as int].model());
            }
            let same_namespace = crate::names::str_equal(
                self.entries[i].namespace.as_str(),
                namespace,
            );
            let same_key = crate::names::str_equal(self.entries[i].key.as_str(), key);
            if same_namespace && same_key {
                proof {
                    lemma_find_entry(self.model(), namespace@, key@);
                }
                return Some(i);
            }
        }
        proof {
            lemma_find_entry(self.model(), namespace@, key@);
        }
        None
    }

    /// Sets the register, optionally under a condition on its prior
    /// state, and optionally returning the previous live value.
    ///
    /// `OnlyIfPresent` is refused with `MissingKey` when no live value
    /// stands at the name; `OnlyIfVacant` is refused with `KeyExists`
    /// when one does.  On success the value and the expiration both
    /// replace whatever stood there, live or expired.
    pub fn set(
        &mut self,
        namespace: &str,
        key: &str,
        value: Value,
        expiration: Option<i64>,
        check: Option<KeyCheck>,
        return_previous: bool,
        now: i64,
    ) -> (r: Result<Option<Value>, KvError>)
        requires
            old(self).inv(),
        ensures
            final(self).inv(),
            ({
                let at = find_entry(old(self).model(), namespace@, key@);
                let was_live = at >= 0 && live(old(self).model()[at], now);
                let stored = (EntryModel {
                    namespace: namespace@,
                    key: key@,
                    value: value.model(),
                    expiration,
                });
                match r {
                    Ok(previous) => {
                        &&& (check matches Some(KeyCheck::OnlyIfPresent) ==> was_live)
                        &&& (check matches Some(KeyCheck::OnlyIfVacant) ==> !was_live)
                        &&& (at >= 0 ==> final(self).model() == old(self).model().update(
                            at,
                            stored,
                        ))
                        &&& (at < 0 ==> final(self).model() == old(self).model().push(stored))
                        &&& (match previous {
                            Some(v) => return_previous && was_live && v.model() == old(
                                self,
                            ).model()[at].value,
                            None => !return_previous || !was_live,
                        })
                    },
                    Err(e) => {
                        &&& *final(self) == *old(self)
                        &&& (e is MissingKey || e is KeyExists)
                        &&& (e == KvError::MissingKey <==> (check matches Some(
                            KeyCheck::OnlyIfPresent,
                        ) && !was_live))
                        &&& (e == KvError::KeyExists <==> (check matches Some(
                            KeyCheck::OnlyIfVacant,
                        ) && was_live))
                    },
                }
            }),
    {
        let at = self.find(namespace, key);
        let was_live = match at {
            Some(i) => {
                proof {
                    assert(self.model()[i as int] == self.entries@[i as int].model());
                }
                match self.entries[i].expiration {
                    None => true,
                    Some(when) => now < when,
                }
            },
            None => false,
        };
        match check {
            Some(KeyCheck::OnlyIfPresent) => {
                if !was_live {
                    return Err(KvError::MissingKey);
                }
            },
            Some(KeyCheck::OnlyIfVacant) => {
                if was_live {
                    return Err(KvError::KeyExists);
                }
            },
            None => {
            },
        }
        let entry = Entry {
            namespace: namespace.to_owned(),
            key: key.to_owned(),
            value,
            expiration,
        };
        match at {
            Some(i) => {
                let ghost before = self.model();
                let previous = if return_previous && was_live {
                    proof {
                        assert(self.model()[i as int] == self.entries@[i as int].model());
                    }
                    Some(copy_value(&self.entries[i].value))
                } else {
                    None
                };
                let slot = &mut self.entries[i];
                *slot = entry;
                proof {
                    lemma_find_entry(before, namespace@, key@);
                    assert(self.model() =~= before.update(
                        i as int,
                        (EntryModel {
                            namespace: namespace@,
                            key: key@,
                            value: value.model(),
                            expiration,
                        }),
                    ));
                    assert(forall|k: int|
                        0 <= k < self.model().len() ==> (#[trigger] self.model()[k]).namespace
                            == before[k].namespace && self.model()[k].key == before[k].key);
                }
                Ok(previous)
            },
            None => {
                let ghost before = self.model();
                self.entries.push(entry);
                proof {
                    lemma_find_entry(before, namespace@, key@);
                    assert(self.model() =~= before.push(
                        (EntryModel {
                            namespace: namespace@,
                            key: key@,
                            value: value.model(),
                            expiration,
                        }),
                    ));
                }
                Ok(None)
            },
        }
    }

    /// Reads the live value under the name, optionally removing it in
    /// the same step.
    pub fn get(&mut self, namespace: &str, key: &str, delete: bool, now: i64) -> (r: Option<
        Value,
    >)
        requires
            old(self).inv(),
        ensures
            final(self).inv(),
            ({
                let at = find_entry(old(self).model(), namespace@, key@);
                let was_live = at >= 0 && live(old(self).model()[at], now);
                match r {
                    Some(v) => was_live && v.model() == old(self).model()[at].value && (delete
                        ==> final(self).model() == old(self).model().remove(at)) && (!delete
                        ==> *final(self) == *old(self)),
                    None => !was_live && *final(self) == *old(self),
                }
            }),
    {
        let at = match self.find(namespace, key) {
            Some(i) => i,
            None => {
                return None;
            },
        };
        proof {
            assert(self.model()[at as int] == self.entries@[at as int].model());
        }
        let is_live = match self.entries[at].expiration {
            None => true,
            Some(when) => now < when,
        };
        if !is_live {
            return None;
        }
        let value = copy_value(&self.entries[at].value);
        if delete {
            let ghost before = self.model();
            let _removed = self.entries.remove(at);
            proof {
                assert(self.model() =~= before.remove(at as int));
                assert forall|i: int, j: int|
                    0 <= i < j < self.model().len() implies !((
                    #[trigger] self.model()[i]).namespace == (
                    #[trigger] self.model()[j]).namespace && self.model()[i].key
                    == self.model()[j].key) by {
                    let oi = if i < at as int {
                        i
                    } else {
                        i + 1
                    };
                    let oj = if j < at as int {
                        j
                    } else {
                        j + 1
                    };
                    assert(self.model()[i] == before[oi]);
                    assert(self.model()[j] == before[oj]);
                }
            }
        }
        Some(value)
    }

    /// Removes the register under the name, expired or not, and says
    /// whether one stood there.
    pub fn delete(&mut self, namespace: &str, key: &str) -> (r: bool)
        requires
            old(self).inv(),
        ensures
            final(self).inv(),
            ({
                let at = find_entry(old(self).model(), namespace@, key@);
                if at >= 0 {
                    r && final(self).model() == old(self).model().remove(at)
                } else {
                    !r && *final(self) == *old(self)
                }
            }),
    {
        let at = match self.find(namespace, key) {
            Some(i) => i,
            None => {
                return false;
            },
        };
        let ghost before = self.model();
        let _removed = self.entries.remove(at);
        proof {
            assert(self.model() =~= before.remove(at as int));
            assert forall|i: int, j: int|
                0 <= i < j < self.model().len() implies !((
                #[trigger] self.model()[i]).namespace == (
                #[trigger] self.model()[j]).namespace && self.model()[i].key
                == self.model()[j].key) by {
                let oi = if i < at as int {
                    i
                } else {
                    i + 1
                };
                let oj = if j < at as int {
                    j
                } else {
                    j + 1
                };
                assert(self.model()[i] == before[oi]);
                assert(self.model()[j] == before[oj]);
            }
        }
        true
    }

    /// Adds `amount` to the number stored under the name, creating it
    /// from zero when absent; a blob under the name is refused.
    ///
    /// With `saturating` the sum sticks at the ends of the range;
    /// without it the sum wraps.
    pub fn increment(
        &mut self,
        namespace: &str,
        key: &str,
        amount: i64,
        saturating: bool,
        now: i64,
    ) -> (r: Result<i64, KvError>)
        requires
            old(self).inv(),
        ensures
            final(self).inv(),
            ({
                let at = find_entry(old(self).model(), namespace@, key@);
                let was_live = at >= 0 && live(old(self).model()[at], now);
                match r {
                    Ok(n) => {
                        &&& (was_live ==> (old(self).model()[at].value matches ValueModel::Numeric(
                            prior,
                        ) && n == (if saturating {
                            sat_add(prior, amount)
                        } else {
                            wrap_add(prior, amount)
                        }) && final(self).model() == old(self).model().update(
                            at,
                            (EntryModel {
                                namespace: namespace@,
                                key: key@,
                                value: ValueModel::Numeric(n),
                                expiration: old(self).model()[at].expiration,
                            }),
                        )))
                        &&& (!was_live ==> n == (if saturating {
                            sat_add(0, amount)
                        } else {
                            wrap_add(0, amount)
                        }) && ({
                            let stored = (EntryModel {
                                namespace: namespace@,
                                key: key@,
                                value: ValueModel::Numeric(n),
                                expiration: None,
                            });
                            if at >= 0 {
                                final(self).model() == old(self).model().update(at, stored)
                            } else {
                                final(self).model() == old(self).model().push(stored)
                            }
                        }))
                    },
                    Err(e) => *final(self) == *old(self) && e == KvError::ValueKindMismatch
                        && was_live && !(old(
                        self,
                    ).model()[at].value is Numeric),
                }
            }),
    {
        let at = self.find(namespace, key);
        let was_live = match at {
            Some(i) => {
                proof {
                    assert(self.model()[i as int] == self.entries@[i as int].model());
                }
                match self.entries[i].expiration {
                    None => true,
                    Some(when) => now < when,
                }
            },
            None => false,
        };
        let prior: i64 = if was_live {
            let i = match at {
                Some(i) => i,
                None => {
                    proof {
                        assert(false);
                    }
                    0
                },
            };
            match &self.entries[i].value {
                Value::Numeric(n) => *n,
                Value::Bytes(_) => {
                    return Err(KvError::ValueKindMismatch);
                },
            }
        } else {
            0
        };
        let next = if saturating {
            exec_sat_add(prior, amount)
        } else {
            exec_wrap_add(prior, amount)
        };
        match at {
            Some(i) => {
                let ghost before = self.model();
                let expiration = if was_live {
                    self.entries[i].expiration
                } else {
                    None
                };
                let entry = Entry {
                    namespace: namespace.to_owned(),
                    key: key.to_owned(),
                    value: Value::Numeric(next),
                    expiration,
                };
                proof {
                    lemma_find_entry(before, namespace@, key@);
                }
                let slot = &mut self.entries[i];
                *slot = entry;
                proof {
                    assert(self.model() =~= before.update(
                        i as int,
                        (EntryModel {
                            namespace: namespace@,
                            key: key@,
                            value: ValueModel::Numeric(next),
                            expiration,
                        }),
                    ));
                    assert(forall|k: int|
                        0 <= k < self.model().len() ==> (#[trigger] self.model()[k]).namespace
                            == before[k].namespace && self.model()[k].key == before[k].key);
                }
                Ok(next)
            },
            None => {
                let ghost before = self.model();
                let entry = Entry {
                    namespace: namespace.to_owned(),
                    key: key.to_owned(),
                    value: Value::Numeric(next),
                    expiration: None,
                };
                self.entries.push(entry);
                proof {
                    lemma_find_entry(before, namespace@, key@);
                    assert(self.model() =~= before.push(
                        (EntryModel {
                            namespace: namespace@,
                            key: key@,
                            value: ValueModel::Numeric(next),
                            expiration: None,
                        }),
                    ));
                }
                Ok(next)
            },
        }
    }

    /// Subtracts `amount` from the number stored under the name; the
    /// mirror image of `increment`.
    pub fn decrement(
        &mut self,
        namespace: &str,
        key: &str,
        amount: i64,
        saturating: bool,
        now: i64,
    ) -> (r: Result<i64, KvError>)
        requires
            old(self).inv(),
        ensures
            final(self).inv(),
            ({
                let at = find_entry(old(self).model(), namespace@, key@);
                let was_live = at >= 0 && live(old(self).model()[at], now);
                match r {
                    Ok(n) => {
                        &&& (was_live ==> (old(self).model()[at].value matches ValueModel::Numeric(
                            prior,
                        ) && n == (if saturating {
                            sat_sub(prior, amount)
                        } else {
                            wrap_sub(prior, amount)
                        }) && final(self).model() == old(self).model().update(
                            at,
                            (EntryModel {
                                namespace: namespace@,
                                key: key@,
                                value: ValueModel::Numeric(n),
                                expiration: old(self).model()[at].expiration,
                            }),
                        )))
                        &&& (!was_live ==> n == (if saturating {
                            sat_sub(0, amount)
                        } else {
                            wrap_sub(0, amount)
                        }) && ({
                            let stored = (EntryModel {
                                namespace: namespace@,
                                key: key@,
                                value: ValueModel::Numeric(n),
                                expiration: None,
                            });
                            if at >= 0 {
                                final(self).model() == old(self).model().update(at, stored)
                            } else {
                                final(self).model() == old(self).model().push(stored)
                            }
                        }))
                    },
                    Err(e) => *final(self) == *old(self) && e == KvError::ValueKindMismatch
                        && was_live && !(old(
                        self,
                    ).model()[at].value is Numeric),
                }
            }),
    {
        let at = self.find(namespace, key);
        let was_live = match at {
            Some(i) => {
                proof {
                    assert(self.model()[i as int] == self.entries@[i as int].model());
                }
                match self.entries[i].expiration {
                    None => true,
                    Some(when) => now < when,
                }
            },
            None => false,
        };
        let prior: i64 = if was_live {
            let i = match at {
                Some(i) => i,
                None => {
                    proof {
                        assert(false);
                    }
                    0
                },
            };
            match &self.entries[i].value {
                Value::Numeric(n) => *n,
                Value::Bytes(_) => {
                    return Err(KvError::ValueKindMismatch);
                },
            }
        } else {
            0
        };
        let next = if saturating {
            exec_sat_sub(prior, amount)
        } else {
            exec_wrap_sub(prior, amount)
        };
        match at {
            Some(i) => {
                let ghost before = self.model();
                let expiration = if was_live {
                    self.entries[i].expiration
                } else {
                    None
                };
                let entry = Entry {
                    namespace: namespace.to_owned(),
                    key: key.to_owned(),
                    value: Value::Numeric(next),
                    expiration,
                };
                proof {
                    lemma_find_entry(before, namespace@, key@);
                }
                let slot = &mut self.entries[i];
                *slot = entry;
                proof {
                    assert(self.model() =~= before.update(
                        i as int,
                        (EntryModel {
                            namespace: namespace@,
                            key: key@,
                            value: ValueModel::Numeric(next),
                            expiration,
                        }),
                    ));
                    assert(forall|k: int|
                        0 <= k < self.model().len() ==> (#[trigger] self.model()[k]).namespace
                            == before[k].namespace && self.model()[k].key == before[k].key);
                }
                Ok(next)
            },
            None => {
                let ghost before = self.model();
                let entry = Entry {
                    namespace: namespace.to_owned(),
                    key: key.to_owned(),
                    value: Value::Numeric(next),
                    expiration: None,
                };
                self.entries.push(entry);
                proof {
                    lemma_find_entry(before, namespace@, key@);
                    assert(self.model() =~= before.push(
                        (EntryModel {
                            namespace: namespace@,
                            key: key@,
                            value: ValueModel::Numeric(next),
                            expiration: None,
                        }),
                    ));
                }
                Ok(next)
            },
        }
    }

    /// Drops every register at or past its expiration, reclaiming the
    /// space it held; visible values are untouched.
    pub fn compact(&mut self, now: i64)
        requires
            old(self).inv(),
        ensures
            final(self).inv(),
            final(self).model() == kept_live(old(self).model(), now),
    {
        let ghost before = self.model();
        let mut kept: Vec<Entry> = Vec::new();
        let n = self.entries.len();
        for i in 0..n
            invariant
                n == self.entries@.len(),
                before == entries_model(self.entries@),
                *self == *old(self),
                entries_model(kept@) == kept_live(before.take(i as int), now),
        {
            proof {
                assert(before.take(i + 1).drop_last() =~= before.take(i as int));
                assert(before.take(i + 1).last() == before[i as int]);
                assert(before[i as int] == self.entries@[i as int].model());
            }
            let is_live = match self.entries[i].expiration {
                None => true,
                Some(when) => now < when,
            };
            if is_live {
                let ghost prev = kept@;
                let copied = copy_entry(&self.entries[i]);
                kept.push(copied);
                proof {
                    assert(entries_model(kept@) =~= entries_model(prev).push(
                        kept@.last().model(),
                    ));
                }
            }
        }
        proof {
            assert(before.take(n as int) =~= before);
            lemma_kept_live_unique(before, now);
        }
        self.entries = kept;
    }
}

/// Saturating signed subtraction.
pub open spec fn sat_sub(a: i64, b: i64) -> i64 {
    if a - b > i64::MAX {
        i64::MAX
    } else if a - b < i64::MIN {
        i64::MIN
    } else {
        (a - b) as i64
    }
}

/// Wrapping signed subtraction.
pub open spec fn wrap_sub(a: i64, b: i64) -> i64 {
    if a - b > i64::MAX {
        (a - b - 0x10000000000000000) as i64
    } else if a - b < i64::MIN {
        (a - b + 0x10000000000000000) as i64
    } else {
        (a - b) as i64
    }
}

fn exec_sat_add(a: i64, b: i64) -> (r: i64)
    ensures
        r == sat_add(a, b),
{
    let sum: i128 = (a as i128) + (b as i128);
    if sum > (i64::MAX as i128) {
        i64::MAX
    } else if sum < (i64::MIN as i128) {
        i64::MIN
    } else {
        sum as i64
    }
}

fn exec_wrap_add(a: i64, b: i64) -> (r: i64)
    ensures
        r == wrap_add(a, b),
{
    let sum: i128 = (a as i128) + (b as i128);
    if sum > (i64::MAX as i128) {
        (sum - 0x10000000000000000i128) as i64
    } else if sum < (i64::MIN as i128) {
        (sum + 0x10000000000000000i128) as i64
    } else {
        sum as i64
    }
}

fn exec_sat_sub(a: i64, b: i64) -> (r: i64)
    ensures
        r == sat_sub(a, b),
{
    let diff: i128 = (a as i128) - (b as i128);
    if diff > (i64::MAX as i128) {
        i64::MAX
    } else if diff < (i64::MIN as i128) {
        i64::MIN
    } else {
        diff as i64
    }
}

fn exec_wrap_sub(a: i64, b: i64) -> (r: i64)
    ensures
        r == wrap_sub(a, b),
{
    let diff: i128 = (a as i128) - (b as i128);
    if diff > (i64::MAX as i128) {
        (diff - 0x10000000000000000i128) as i64
    } else if diff < (i64::MIN as i128) {
        (diff + 0x10000000000000000i128) as i64
    } else {
        diff as i64
    }
}

/// Copies a stored value; the copy has the same model.
fn copy_value(v: &Value) -> (r: Value)
    ensures
        r.model() == v.model(),
{
    match v {
        Value::Bytes(b) => Value::Bytes(vstd::slice::slice_to_vec(b.as_slice())),
        Value::Numeric(n) => Value::Numeric(*n),
    }
}


/// Copies a register; the copy has the same model.
fn copy_entry(e: &Entry) -> (r: Entry)
    ensures
        r.model() == e.model(),
{
    Entry {
        namespace: e.namespace.clone(),
        key: e.key.clone(),
        value: copy_value(&e.value),
        expiration: e.expiration,
    }
}

} // verus!
