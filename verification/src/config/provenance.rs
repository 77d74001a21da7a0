//! Where each configuration field's value came from.

use vstd::prelude::*;
use crate::text::{str_eq, strs, usize_to_string};

verus! {

/// The origin of a configuration field's value.
#[derive(Debug, Clone, Copy, PartialEq, Eq, Structural)]
pub enum FieldProvenance {
    /// Set in the project file, on this line (0: line not known yet).
    UserToml { line: usize },
    ProcessorDefault,
    ScanDefault,
    OutputDirDefault,
    SerdeDefault,
    CliOverride,
}

/// How an origin is shown.
pub open spec fn provenance_text(p: FieldProvenance) -> Seq<char> {
    match p {
        FieldProvenance::UserToml { line } => "from rsconstruct.toml:"@ + crate::text::decimal(line as nat),
        FieldProvenance::ProcessorDefault => "processor default"@,
        FieldProvenance::ScanDefault => "scan default"@,
        FieldProvenance::OutputDirDefault => "output dir default"@,
        FieldProvenance::SerdeDefault => "serde default"@,
        FieldProvenance::CliOverride => "CLI override"@,
    }
}

impl FieldProvenance {
    /// The origin as it is shown.
    pub fn to_string(&self) -> (r: String)
        ensures
            r@ == provenance_text(*self),
    {
        match self {
            FieldProvenance::UserToml { line } => {
                let mut s: String = String::from_str("from rsconstruct.toml:");
                s.append(usize_to_string(*line).as_str());
                s
            },
            FieldProvenance::ProcessorDefault => String::from_str("processor default"),
            FieldProvenance::ScanDefault => String::from_str("scan default"),
            FieldProvenance::OutputDirDefault => String::from_str("output dir default"),
            FieldProvenance::SerdeDefault => String::from_str("serde default"),
            FieldProvenance::CliOverride => String::from_str("CLI override"),
        }
    }
}

/// Which config section a user-set field lives in.
#[derive(Debug, Clone, Copy, PartialEq, Eq, Structural)]
pub enum Section {
    Processor,
    Analyzer,
}

/// The origin of each field, by field name.
#[derive(Debug, Clone)]
pub struct ProvenanceMap {
    entries: Vec<(String, FieldProvenance)>,
}

/// The names of a list of entries.
pub open spec fn entry_names(v: Seq<(String, FieldProvenance)>) -> Seq<Seq<char>> {
    v.map_values(|e: (String, FieldProvenance)| e.0@)
}

impl View for ProvenanceMap {
    type V = Map<Seq<char>, FieldProvenance>;

    closed spec fn view(&self) -> Map<Seq<char>, FieldProvenance> {
        Map::new(
            |k: Seq<char>| entry_names(self.entries@).contains(k),
            |k: Seq<char>| self.entries@[entry_names(self.entries@).index_of(k)].1,
        )
    }
}

impl ProvenanceMap {
    /// Each field is listed once.
    pub closed spec fn wf(&self) -> bool {
        entry_names(self.entries@).no_duplicates()
    }

    /// No field recorded.
    pub fn new() -> (r: ProvenanceMap)
        ensures
            r.wf(),
            r@ == Map::<Seq<char>, FieldProvenance>::empty(),
    {
        let r = ProvenanceMap { entries: Vec::new() };
        proof {
            assert(entry_names(r.entries@) =~= Seq::<Seq<char>>::empty());
            assert(r@ =~= Map::<Seq<char>, FieldProvenance>::empty());
        }
        r
    }

    /// The position of `field`'s entry.
    fn position(&self, field: &str) -> (r: Option<usize>)
        ensures
            r matches Some(i) ==> i < self.entries@.len() && self.entries@[i as int].0@ == field@,
            r is None ==> !entry_names(self.entries@).contains(field@),
    {
        let mut i: usize = 0;
        while i < self.entries.len()
            invariant
                0 <= i <= self.entries.len(),
                forall|j: int| 0 <= j < i ==> entry_names(self.entries@)[j] != field@,
            decreases self.entries.len() - i,
        {
            if str_eq(self.entries[i].0.as_str(), field) {
                return Some(i);
            }
            proof {
                assert(entry_names(self.entries@)[i as int] == self.entries@[i as int].0@);
            }
            i = i + 1;
        }
        None
    }

    /// Whether `field` has a recorded origin.
    pub fn contains_key(&self, field: &str) -> (r: bool)
        ensures
            r == self@.contains_key(field@),
    {
        match self.position(field) {
            Some(i) => {
                proof {
                    assert(entry_names(self.entries@)[i as int] == field@);
                }
                true
            },
            None => false,
        }
    }

    /// The recorded origin of `field`.
    pub fn get(&self, field: &str) -> (r: Option<FieldProvenance>)
        requires
            self.wf(),
        ensures
            r matches Some(p) ==> self@.contains_key(field@) && self@[field@] == p,
            r is None ==> !self@.contains_key(field@),
    {
        match self.position(field) {
            Some(i) => {
                proof {
                    let names = entry_names(self.entries@);
                    assert(names[i as int] == field@);
                    names.index_of_first_ensures(field@);
                    assert(names.index_of(field@) == i as int);
                }
                Some(self.entries[i].1)
            },
            None => None,
        }
    }

    /// Records `field`'s origin, replacing any earlier one.
    pub fn insert(&mut self, field: &str, source: FieldProvenance)
        requires
            old(self).wf(),
        ensures
            final(self).wf(),
            final(self)@ == old(self)@.insert(field@, source),
    {
        let ghost m0 = self@;
        match self.position(field) {
            Some(i) => {
                let ghost e0 = self.entries@;
                self.entries.set(i, (String::from_str(field), source));
                proof {
                    let n0 = entry_names(e0);
                    let n1 = entry_names(self.entries@);
                    assert(n1 =~= n0);
                    assert(n0[i as int] == field@);
                    assert(n0.contains(field@));
                    assert forall|k: Seq<char>| #[trigger] self@.contains_key(k) <==> m0.insert(field@, source).contains_key(k) by {}
                    assert forall|k: Seq<char>| self@.contains_key(k) implies #[trigger] self@[k] == m0.insert(field@, source)[k] by {
                        n0.index_of_first_ensures(k);
                        if k == field@ {
                            assert(n0[i as int] == field@);
                            assert(n0.index_of(k) == i as int);
                        }
                    }
                    assert(self@ =~= m0.insert(field@, source));
                }
            },
            None => {
                let ghost e0 = self.entries@;
                self.entries.push((String::from_str(field), source));
                proof {
                    let n0 = entry_names(e0);
                    let n1 = entry_names(self.entries@);
                    assert(n1 =~= n0.push(field@));
                    assert(n1.no_duplicates()) by {
                        assert forall|a: int, b: int| 0 <= a < b < n1.len() implies n1[a] != n1[b] by {
                            if b == n1.len() - 1 {
                                assert(n1[a] == n0[a]);
                            }
                        }
                    }
                    vstd::seq_lib::lemma_seq_contains_after_push(n0, field@, field@);
                    assert forall|k: Seq<char>| #[trigger] self@.contains_key(k) <==> m0.insert(field@, source).contains_key(k) by {
                        vstd::seq_lib::lemma_seq_contains_after_push(n0, field@, k);
                    }
                    assert forall|k: Seq<char>| self@.contains_key(k) implies #[trigger] self@[k] == m0.insert(field@, source)[k] by {
                        n1.index_of_first_ensures(k);
                        n0.index_of_first_ensures(k);
                        if k == field@ {
                            assert(n1[n1.len() - 1] == field@);
                            assert(n1.index_of(k) == n1.len() - 1);
                        } else {
                            let j = n0.index_of(k);
                            assert(n1[j] == n0[j]);
                            assert(n1.index_of(k) == j);
                        }
                    }
                    assert(self@ =~= m0.insert(field@, source));
                }
            },
        }
    }

    /// The recorded fields with their origins, in recording order.
    pub fn entries(&self) -> (r: &Vec<(String, FieldProvenance)>)
        ensures
            forall|k: Seq<char>| #[trigger] self@.contains_key(k) <==> entry_names(r@).contains(k),
    {
        &self.entries
    }
}

/// Records `source` as the origin of `field` unless it already has one: a
/// default applied later never overrides what the user set.
pub fn record_if_absent(map: &mut ProvenanceMap, field: &str, source: FieldProvenance)
    requires
        old(map).wf(),
    ensures
        final(map).wf(),
        old(map)@.contains_key(field@) ==> final(map)@ == old(map)@,
        !old(map)@.contains_key(field@) ==> final(map)@ == old(map)@.insert(field@, source),
{
    if !map.contains_key(field) {
        map.insert(field, source);
    }
}

} // verus!
