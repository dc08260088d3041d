//! Name registry: a locally authoritative mapping from unique names to node
//! ids, with no cross-node consistency guarantee.
use vstd::prelude::*;

verus! {

use vstd::pervasive::VecAdditionalExecFns;
use crate::error::MeshError;

/// One name binding: the name, the node it names, and when it was set.
#[derive(Debug, Clone, PartialEq, Eq)]
pub struct NameRecord {
    pub name: String,
    pub node_id: String,
    pub timestamp: i64,
}

impl NameRecord {
    /// A field-for-field copy, proved equal to the original.
    pub fn duplicate(&self) -> (r: NameRecord)
        ensures
            r == *self,
    {
        NameRecord {
            name: self.name.clone(),
            node_id: self.node_id.clone(),
            timestamp: self.timestamp,
        }
    }
}

/// The first record bound to this name.
pub open spec fn record_of(s: Seq<NameRecord>, name: Seq<char>) -> Option<NameRecord>
    decreases s.len(),
{
    if s.len() == 0 {
        None
    } else if s[0].name@ == name {
        Some(s[0])
    } else {
        record_of(s.drop_first(), name)
    }
}

/// Local name registry: unique names, each bound to one record.
pub struct NameRegistry {
    pub records: Vec<NameRecord>,
}

impl NameRegistry {
    /// Names in the registry are unique.
    pub open spec fn wf(&self) -> bool {
        forall|i: int, j: int| 0 <= i < j < self.records@.len() ==> (
        #[trigger] self.records@[i]).name@ != (#[trigger] self.records@[j]).name@
    }

    /// An empty registry.
    pub fn new() -> (r: NameRegistry)
        ensures
            r.wf(),
            r.records@.len() == 0,
    {
        NameRegistry { records: Vec::new() }
    }

    /// The index of the record bound to this name, when one exists.
    fn find(&self, name: &str) -> (r: Option<usize>)
        ensures
            r matches Some(i) ==> i < self.records@.len() && self.records@[i as int].name@
                == name@ && (forall|j: int| 0 <= j < i ==> (
            #[trigger] self.records@[j]).name@ != name@),
            r is None ==> forall|j: int| 0 <= j < self.records@.len() ==> (
            #[trigger] self.records@[j]).name@ != name@,
    {
        let mid: String = name.to_owned();
        let mut k: usize = 0;
        while k < self.records.len()
            invariant
                k <= self.records@.len(),
                mid@ == name@,
                forall|j: int| 0 <= j < k ==> (#[trigger] self.records@[j]).name@ != name@,
            decreases self.records@.len() - k,
        {
            if self.records[k].name == mid {
                return Some(k);
            }
            k = k + 1;
        }
        None
    }

    /// Bind a name to a node id, replacing any earlier binding of the same
    /// name; nothing else moves.
    pub fn register(&mut self, name: String, node_id: String, now: i64)
        requires
            old(self).wf(),
        ensures
            final(self).wf(),
            forall|i: int| 0 <= i < old(self).records@.len() ==> #[trigger] final(self).records@[i] == (if old(self).records@[i].name@ == name@ {
                (NameRecord { name: old(self).records@[i].name, node_id: node_id, timestamp: now })
            } else {
                old(self).records@[i]
            }),
            final(self).records@.len() == (if record_of(old(self).records@, name@) is Some {
                old(self).records@.len()
            } else {
                old(self).records@.len() + 1
            }),
            record_of(old(self).records@, name@) is None ==> final(self).records@.last().name@
                == name@ && final(self).records@.last().node_id@ == node_id@ && final(self).records@.last().timestamp == now,
    {
        match self.find(name.as_str()) {
            Some(i) => {
                proof {
                    lemma_record_of_first(self.records@, i as int, name@);
                }
                let rec = NameRecord {
                    name: self.records[i].name.clone(),
                    node_id,
                    timestamp: now,
                };
                self.records.set(i, rec);
                proof {
                    assert forall|a: int, b: int| 0 <= a < b < self.records@.len() implies (
                    #[trigger] self.records@[a]).name@ != (#[trigger] self.records@[b]).name@ by {
                        assert(self.records@[a].name@ == old(self).records@[a].name@);
                        assert(self.records@[b].name@ == old(self).records@[b].name@);
                    }
                }
            },
            None => {
                proof {
                    lemma_record_of_absent(self.records@, name@);
                }
                self.records.push(NameRecord { name, node_id, timestamp: now });
                proof {
                    assert forall|a: int, b: int| 0 <= a < b < self.records@.len() implies (
                    #[trigger] self.records@[a]).name@ != (#[trigger] self.records@[b]).name@ by {
                        if b == self.records@.len() - 1 {
                            assert(self.records@[a].name@ == old(self).records@[a].name@);
                        } else {
                            assert(self.records@[a].name@ == old(self).records@[a].name@);
                            assert(self.records@[b].name@ == old(self).records@[b].name@);
                        }
                    }
                }
            },
        }
    }

    /// The node id a name resolves to, when it is bound.
    pub fn resolve(&self, name: &str) -> (r: Option<String>)
        requires
            self.wf(),
        ensures
            r is Some <==> record_of(self.records@, name@) is Some,
            r matches Some(id) ==> (record_of(self.records@, name@) matches Some(rec) && id@
                == rec.node_id@),
    {
        match self.find(name) {
            Some(i) => {
                proof {
                    lemma_record_of_first(self.records@, i as int, name@);
                }
                Some(self.records[i].node_id.clone())
            },
            None => {
                proof {
                    lemma_record_of_absent(self.records@, name@);
                }
                None
            },
        }
    }

    /// Every binding, copied, in registry order.
    pub fn list(&self) -> (r: Vec<NameRecord>)
        ensures
            r@ == self.records@,
    {
        let mut r: Vec<NameRecord> = Vec::new();
        let mut k: usize = 0;
        while k < self.records.len()
            invariant
                k <= self.records@.len(),
                r@ == self.records@.subrange(0, k as int),
            decreases self.records@.len() - k,
        {
            r.push(self.records[k].duplicate());
            proof {
                assert(r@ =~= self.records@.subrange(0, k + 1 as int));
            }
            k = k + 1;
        }
        proof {
            assert(self.records@.subrange(0, self.records@.len() as int) =~= self.records@);
        }
        r
    }

    /// Unbind a name; afterwards it resolves to nothing, and every other
    /// binding survives.
    pub fn delete(&mut self, name: &str)
        requires
            old(self).wf(),
        ensures
            final(self).wf(),
            record_of(final(self).records@, name@) is None,
            forall|n: Seq<char>| n != name@ ==> #[trigger] record_of(final(self).records@, n)
                == record_of(old(self).records@, n),
    {
        let mid: String = name.to_owned();
        let mut kept: Vec<NameRecord> = Vec::new();
        let n = self.records.len();
        let mut k: usize = 0;
        proof {
            assert(self.records@.subrange(0, 0) =~= Seq::<NameRecord>::empty());
        }
        while k < n
            invariant
                k <= n,
                n == self.records@.len(),
                old(self) == self,
                self.wf(),
                mid@ == name@,
                record_of(kept@, name@) is None,
                forall|i: int, j: int| 0 <= i < j < kept@.len() ==> (#[trigger] kept@[i]).name@
                    != (#[trigger] kept@[j]).name@,
                forall|n2: Seq<char>| n2 != name@ ==> #[trigger] record_of(kept@, n2) == record_of(
                    self.records@.subrange(0, k as int),
                    n2,
                ),
            decreases n - k,
        {
            let entry = self.records[k].duplicate();
            let ghost eidv = entry.name@;
            let ghost prefix = self.records@.subrange(0, k as int);
            proof {
                assert(entry == self.records@[k as int]);
                assert(self.records@.subrange(0, k + 1 as int) =~= prefix.push(
                    self.records@[k as int],
                ));
                if record_of(prefix, eidv) is Some {
                    lemma_record_of_present(prefix, eidv);
                    let w = choose|w: int| 0 <= w < prefix.len() && (#[trigger] prefix[w]).name@
                        == eidv;
                    assert(self.records@[w].name@ == eidv);
                    assert(false);
                }
                assert forall|n2: Seq<char>| true implies #[trigger] record_of(
                    self.records@.subrange(0, k + 1 as int),
                    n2,
                ) == (match record_of(prefix, n2) {
                    Some(t) => Some(t),
                    None => if eidv == n2 {
                        Some(self.records@[k as int])
                    } else {
                        None
                    },
                }) by {
                    lemma_record_of_push(prefix, n2, self.records@[k as int]);
                }
            }
            if !(entry.name == mid) {
                let ghost prevk = kept@;
                kept.push(entry);
                proof {
                    assert(kept@ =~= prevk.push(kept@.last()));
                    assert(kept@.last() == self.records@[k as int]);
                    assert forall|n2: Seq<char>| true implies #[trigger] record_of(kept@, n2) == (
                    match record_of(prevk, n2) {
                        Some(t) => Some(t),
                        None => if eidv == n2 {
                            Some(kept@.last())
                        } else {
                            None
                        },
                    }) by {
                        lemma_record_of_push(prevk, n2, kept@.last());
                    }
                    lemma_record_of_none_absent(prevk, eidv);
                    assert(forall|i: int| 0 <= i < prevk.len() ==> kept@[i] == prevk[i]);
                    assert forall|i: int, j: int| 0 <= i < j < kept@.len() implies (
                    #[trigger] kept@[i]).name@ != (#[trigger] kept@[j]).name@ by {
                        if j == kept@.len() - 1 {
                            assert(kept@[j].name@ == eidv);
                        }
                    }
                }
            }
            k = k + 1;
        }
        proof {
            assert(self.records@.subrange(0, n as int) =~= self.records@);
        }
        self.records = kept;
    }
}

proof fn lemma_record_of_first(s: Seq<NameRecord>, i: int, name: Seq<char>)
    requires
        0 <= i < s.len(),
        s[i].name@ == name,
        forall|j: int| 0 <= j < i ==> (#[trigger] s[j]).name@ != name,
    ensures
        record_of(s, name) == Some(s[i]),
    decreases i,
{
    if i == 0 {
    } else {
        assert(s.drop_first()[i - 1] == s[i]);
        assert(forall|j: int| 0 <= j < i - 1 ==> s.drop_first()[j] == s[j + 1]);
        lemma_record_of_first(s.drop_first(), i - 1, name);
    }
}

proof fn lemma_record_of_absent(s: Seq<NameRecord>, name: Seq<char>)
    requires
        forall|j: int| 0 <= j < s.len() ==> (#[trigger] s[j]).name@ != name,
    ensures
        record_of(s, name) is None,
    decreases s.len(),
{
    if s.len() > 0 {
        assert(forall|j: int| 0 <= j < s.drop_first().len() ==> s.drop_first()[j] == s[j + 1]);
        lemma_record_of_absent(s.drop_first(), name);
    }
}

proof fn lemma_record_of_none_absent(s: Seq<NameRecord>, name: Seq<char>)
    requires
        record_of(s, name) is None,
    ensures
        forall|i: int| 0 <= i < s.len() ==> (#[trigger] s[i]).name@ != name,
    decreases s.len(),
{
    if s.len() > 0 {
        lemma_record_of_none_absent(s.drop_first(), name);
        assert(forall|i: int| 1 <= i < s.len() ==> s[i] == s.drop_first()[i - 1]);
    }
}

proof fn lemma_record_of_present(s: Seq<NameRecord>, name: Seq<char>)
    requires
        record_of(s, name) is Some,
    ensures
        exists|i: int| 0 <= i < s.len() && (#[trigger] s[i]).name@ == name,
    decreases s.len(),
{
    if s.len() > 0 {
        if s[0].name@ == name {
        } else {
            lemma_record_of_present(s.drop_first(), name);
            let w = choose|i: int| 0 <= i < s.drop_first().len() && (
            #[trigger] s.drop_first()[i]).name@ == name;
            assert(s[w + 1].name@ == name);
        }
    }
}

proof fn lemma_record_of_push(s: Seq<NameRecord>, name: Seq<char>, e: NameRecord)
    ensures
        record_of(s.push(e), name) == (match record_of(s, name) {
            Some(t) => Some(t),
            None => if e.name@ == name {
                Some(e)
            } else {
                None
            },
        }),
    decreases s.len(),
{
    let sp = s.push(e);
    if s.len() == 0 {
        assert(sp[0] == e);
        if e.name@ == name {
            assert(record_of(sp, name) == Some(e));
        } else {
            assert(sp.drop_first() =~= Seq::<NameRecord>::empty());
            assert(record_of(sp.drop_first(), name) is None);
            assert(record_of(sp, name) is None);
        }
    } else {
        assert(sp[0] == s[0]);
        assert(sp.drop_first() =~= s.drop_first().push(e));
        lemma_record_of_push(s.drop_first(), name, e);
    }
}

} // verus!
