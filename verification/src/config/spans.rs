//! The line of the project file each user-set field is written on, read
//! from the file's layout as `toml_edit` parses it, so that a field's
//! origin can be shown as `rsconstruct.toml:<line>`.

use vstd::prelude::*;
use vstd::string::StringSliceAdditionalSpecFns;
use crate::config::provenance::{FieldProvenance, ProvenanceMap, Section};
use crate::text::{str_eq, strs};

verus! {

#[verifier::external_type_specification]
#[verifier::external_body]
pub struct ExTomlEditTable(toml_edit::Table);

/// An entry of a table as the project file lays it out: its key, the byte
/// offsets at which the key and the value are written (when the parser
/// recorded them), and, for a table written as its own `[header]` section,
/// that table's entries.
#[derive(Debug)]
pub struct LaidOutEntry {
    pub key: String,
    pub key_offset: Option<usize>,
    pub value_offset: Option<usize>,
    pub table: Option<Vec<LaidOutEntry>>,
}

/// The root table of `source` as `toml_edit::Document::parse` lays it out,
/// converted, or `None` when the text does not parse. A function of the
/// text alone.
pub uninterp spec fn toml_layout(source: Seq<char>) -> Option<Seq<LaidOutEntry>>;

/// `toml_edit::Document::parse`: parses `source` keeping where each key and
/// value is written. The contract names the outcome as a function of the
/// text.
#[verifier::external_body]
fn parse_layout(source: &str) -> (r: Option<Vec<LaidOutEntry>>)
    ensures
        match r {
            Some(v) => toml_layout(source@) == Some(v@),
            None => toml_layout(source@) is None,
        },
{
    toml_edit::Document::<&str>::parse(source).ok().map(|d| laid_out(d.as_table()))
}

/// Converts a `toml_edit::Table`, entry by entry in document order: the key
/// text, the start of the key's span and of the value's span, and the
/// entries of a value that is a `[header]` table.
#[verifier::external_body]
fn laid_out(t: &toml_edit::Table) -> Vec<LaidOutEntry> {
    t.iter()
        .map(|(k, item)| LaidOutEntry {
            key: k.to_string(),
            key_offset: t.key(k).and_then(toml_edit::Key::span).map(|r| r.start),
            value_offset: item.span().map(|r| r.start),
            table: item.as_table().map(laid_out),
        })
        .collect()
}

/// The number of newline bytes in `b`.
pub open spec fn newlines(b: Seq<u8>) -> nat
    decreases b.len(),
{
    if b.len() == 0 {
        0
    } else {
        newlines(b.drop_last()) + if b.last() == 10u8 {
            1nat
        } else {
            0nat
        }
    }
}

/// The 1-based line of byte `offset` of `bytes` (an offset past the end
/// counts as the end).
pub open spec fn line_at(bytes: Seq<u8>, offset: nat) -> nat {
    1 + newlines(bytes.take(if offset < bytes.len() {
        offset as int
    } else {
        bytes.len() as int
    }))
}

/// The 1-based line that byte `offset` of `source` is on.
pub fn byte_offset_to_line(source: &str, offset: usize) -> (r: usize)
    requires
        source.spec_bytes().len() < usize::MAX,
    ensures
        r == line_at(source.spec_bytes(), offset as nat),
{
    let bytes: &[u8] = source.as_bytes();
    let clamped: usize = if offset < bytes.len() {
        offset
    } else {
        bytes.len()
    };
    let mut line: usize = 1;
    let mut i: usize = 0;
    proof {
        assert(bytes@.take(0) =~= Seq::<u8>::empty());
    }
    while i < clamped
        invariant
            0 <= i <= clamped,
            clamped <= bytes@.len(),
            bytes@.len() < usize::MAX,
            line == 1 + newlines(bytes@.take(i as int)),
            newlines(bytes@.take(i as int)) <= i,
        decreases clamped - i,
    {
        proof {
            assert(bytes@.take(i + 1).drop_last() =~= bytes@.take(i as int));
        }
        if bytes[i] == 10u8 {
            line = line + 1;
        }
        i = i + 1;
    }
    line
}

/// The line an entry is written on: where its key starts, else where its
/// value starts.
pub open spec fn entry_line(bytes: Seq<u8>, e: LaidOutEntry) -> Option<nat> {
    match e.key_offset {
        Some(o) => Some(line_at(bytes, o as nat)),
        None => match e.value_offset {
            Some(o) => Some(line_at(bytes, o as nat)),
            None => None,
        },
    }
}

/// The line of each field of a section, by (section, instance, field); a
/// later record of the same field replaces an earlier one.
pub struct SpanMap {
    records: Vec<(Section, String, String, usize)>,
}

/// The map the records make, each replacing any earlier one for its key.
pub open spec fn span_records(v: Seq<(Section, String, String, usize)>) -> Map<(Section, Seq<char>, Seq<char>), nat>
    decreases v.len(),
{
    if v.len() == 0 {
        Map::empty()
    } else {
        span_records(v.drop_last()).insert((v.last().0, v.last().1@, v.last().2@), v.last().3 as nat)
    }
}

impl View for SpanMap {
    type V = Map<(Section, Seq<char>, Seq<char>), nat>;

    closed spec fn view(&self) -> Map<(Section, Seq<char>, Seq<char>), nat> {
        span_records(self.records@)
    }
}

impl SpanMap {
    /// No field recorded.
    pub fn new() -> (r: SpanMap)
        ensures
            r@ == Map::<(Section, Seq<char>, Seq<char>), nat>::empty(),
    {
        SpanMap { records: Vec::new() }
    }

    /// Records the line of a field.
    pub fn insert(&mut self, section: Section, instance: &str, field: &str, line: usize)
        ensures
            final(self)@ == old(self)@.insert((section, instance@, field@), line as nat),
    {
        self.records.push((section, String::from_str(instance), String::from_str(field), line));
        proof {
            assert(self.records@.drop_last() =~= old(self).records@);
        }
    }

    /// The line recorded for a field.
    pub fn get(&self, section: Section, instance: &str, field: &str) -> (r: Option<usize>)
        ensures
            r matches Some(l) ==> self@.contains_key((section, instance@, field@)) && self@[(section, instance@, field@)]
                == l as nat,
            r is None ==> !self@.contains_key((section, instance@, field@)),
    {
        let ghost key = (section, instance@, field@);
        let mut i: usize = self.records.len();
        proof {
            assert(self.records@.take(i as int) =~= self.records@);
        }
        while i > 0
            invariant
                0 <= i <= self.records@.len(),
                key == (section, instance@, field@),
                span_records(self.records@).contains_key(key) == span_records(self.records@.take(i as int)).contains_key(key),
                span_records(self.records@).contains_key(key) ==> span_records(self.records@)[key] == span_records(
                    self.records@.take(i as int),
                )[key],
            decreases i,
        {
            let rec = &self.records[i - 1];
            proof {
                let t = self.records@.take(i as int);
                assert(t.drop_last() =~= self.records@.take(i - 1));
                assert(t.last() == self.records@[i - 1]);
                assert(span_records(t) == span_records(self.records@.take(i - 1)).insert(
                    (rec.0, rec.1@, rec.2@),
                    rec.3 as nat,
                ));
            }
            let same_section: bool = rec.0 == section;
            let same_instance: bool = str_eq(rec.1.as_str(), instance);
            let same_field: bool = str_eq(rec.2.as_str(), field);
            if same_section && same_instance && same_field {
                proof {
                    assert((rec.0, rec.1@, rec.2@) == key);
                }
                return Some(rec.3);
            }
            proof {
                assert((rec.0, rec.1@, rec.2@) != key);
            }
            i = i - 1;
        }
        None
    }
}

/// What one field of an instance table adds to the span map.
pub open spec fn field_records(
    bytes: Seq<u8>,
    section: Section,
    instance: Seq<char>,
    fields: Seq<LaidOutEntry>,
    m: Map<(Section, Seq<char>, Seq<char>), nat>,
) -> Map<(Section, Seq<char>, Seq<char>), nat>
    decreases fields.len(),
{
    if fields.len() == 0 {
        m
    } else {
        let prev = field_records(bytes, section, instance, fields.drop_last(), m);
        match entry_line(bytes, fields.last()) {
            Some(l) => prev.insert((section, instance, fields.last().key@), l),
            None => prev,
        }
    }
}

/// Every entry is a `[header]` table, and there is at least one: the
/// section holds named instances.
pub open spec fn all_tables(entries: Seq<LaidOutEntry>) -> bool {
    entries.len() > 0 && forall|i: int| 0 <= i < entries.len() ==> (#[trigger] entries[i]).table is Some
}

/// What the instance tables of one processor or analyzer type add: each
/// named instance `type.name` when every entry of the type's table is a
/// table, else the type's table as one instance named after the type.
pub open spec fn instance_records(
    bytes: Seq<u8>,
    section: Section,
    proc_type: Seq<char>,
    sub: Seq<LaidOutEntry>,
    m: Map<(Section, Seq<char>, Seq<char>), nat>,
) -> Map<(Section, Seq<char>, Seq<char>), nat> {
    if all_tables(sub) {
        named_instance_records(bytes, section, proc_type, sub, sub.len() as int, m)
    } else {
        field_records(bytes, section, proc_type, sub, m)
    }
}

/// The first `k` named instances of a type.
pub open spec fn named_instance_records(
    bytes: Seq<u8>,
    section: Section,
    proc_type: Seq<char>,
    sub: Seq<LaidOutEntry>,
    k: int,
    m: Map<(Section, Seq<char>, Seq<char>), nat>,
) -> Map<(Section, Seq<char>, Seq<char>), nat>
    decreases k,
{
    if k <= 0 || k > sub.len() {
        m
    } else {
        let prev = named_instance_records(bytes, section, proc_type, sub, k - 1, m);
        match sub[k - 1].table {
            Some(t) => field_records(bytes, section, proc_type + "."@ + sub[k - 1].key@, t@, prev),
            None => prev,
        }
    }
}

/// What the first `k` types of a `[processor]` or `[analyzer]` table add.
pub open spec fn section_records(
    bytes: Seq<u8>,
    section: Section,
    types: Seq<LaidOutEntry>,
    k: int,
    m: Map<(Section, Seq<char>, Seq<char>), nat>,
) -> Map<(Section, Seq<char>, Seq<char>), nat>
    decreases k,
{
    if k <= 0 || k > types.len() {
        m
    } else {
        let prev = section_records(bytes, section, types, k - 1, m);
        match types[k - 1].table {
            Some(t) => instance_records(bytes, section, types[k - 1].key@, t@, prev),
            None => prev,
        }
    }
}

/// The table entry `key` of the root, when it is a `[header]` table (the
/// first one of that name).
pub open spec fn header_table(root: Seq<LaidOutEntry>, key: Seq<char>) -> Option<Seq<LaidOutEntry>> {
    match first_named(root, key, 0) {
        Some(i) => match root[i as int].table {
            Some(t) => Some(t@),
            None => None,
        },
        None => None,
    }
}

/// The first entry named `key`, from `k` on.
pub open spec fn first_named(entries: Seq<LaidOutEntry>, key: Seq<char>, k: int) -> Option<nat>
    decreases entries.len() - k,
{
    if k < 0 || k >= entries.len() {
        None
    } else if entries[k].key@ == key {
        Some(k as nat)
    } else {
        first_named(entries, key, k + 1)
    }
}

/// The span map of a project file: the line of every field of every
/// `[processor]` and `[analyzer]` instance; empty when the file does not
/// parse.
pub open spec fn span_map_spec(source: Seq<char>, bytes: Seq<u8>) -> Map<(Section, Seq<char>, Seq<char>), nat> {
    match toml_layout(source) {
        None => Map::empty(),
        Some(root) => {
            let after_processor = match header_table(root, "processor"@) {
                Some(t) => section_records(bytes, Section::Processor, t, t.len() as int, Map::empty()),
                None => Map::empty(),
            };
            match header_table(root, "analyzer"@) {
                Some(t) => section_records(bytes, Section::Analyzer, t, t.len() as int, after_processor),
                None => after_processor,
            }
        },
    }
}

/// The line of an entry (see `entry_line`).
fn line_of(source: &str, e: &LaidOutEntry) -> (r: Option<usize>)
    requires
        source.spec_bytes().len() < usize::MAX,
    ensures
        match entry_line(source.spec_bytes(), *e) {
            Some(l) => (r matches Some(x) && x as nat == l),
            None => r is None,
        },
{
    match e.key_offset {
        Some(o) => Some(byte_offset_to_line(source, o)),
        None => match e.value_offset {
            Some(o) => Some(byte_offset_to_line(source, o)),
            None => None,
        },
    }
}

/// Records the line of each field of one instance.
fn record_field_lines(source: &str, fields: &Vec<LaidOutEntry>, section: Section, instance: &str, map: &mut SpanMap)
    requires
        source.spec_bytes().len() < usize::MAX,
    ensures
        final(map)@ == field_records(source.spec_bytes(), section, instance@, fields@, old(map)@),
{
    let ghost m0 = map@;
    let mut i: usize = 0;
    proof {
        assert(fields@.take(0) =~= Seq::<LaidOutEntry>::empty());
    }
    while i < fields.len()
        invariant
            0 <= i <= fields.len(),
            source.spec_bytes().len() < usize::MAX,
            map@ == field_records(source.spec_bytes(), section, instance@, fields@.take(i as int), m0),
        decreases fields.len() - i,
    {
        proof {
            assert(fields@.take(i + 1).drop_last() =~= fields@.take(i as int));
            assert(fields@.take(i + 1).last() == fields@[i as int]);
        }
        match line_of(source, &fields[i]) {
            Some(line) => {
                map.insert(section, instance, fields[i].key.as_str(), line);
            },
            None => {},
        }
        i = i + 1;
    }
    proof {
        assert(fields@.take(fields@.len() as int) =~= fields@);
    }
}

/// Whether every entry is a `[header]` table, and there is at least one.
fn every_entry_is_table(entries: &Vec<LaidOutEntry>) -> (r: bool)
    ensures
        r == all_tables(entries@),
{
    if entries.len() == 0 {
        return false;
    }
    let mut i: usize = 0;
    while i < entries.len()
        invariant
            0 <= i <= entries.len(),
            forall|j: int| 0 <= j < i ==> (#[trigger] entries@[j]).table is Some,
        decreases entries.len() - i,
    {
        if entries[i].table.is_none() {
            return false;
        }
        i = i + 1;
    }
    true
}

/// Records the fields of the instances of one type.
fn walk_type(source: &str, proc_type: &str, sub: &Vec<LaidOutEntry>, section: Section, map: &mut SpanMap)
    requires
        source.spec_bytes().len() < usize::MAX,
    ensures
        final(map)@ == instance_records(source.spec_bytes(), section, proc_type@, sub@, old(map)@),
{
    if every_entry_is_table(sub) {
        let ghost m0 = map@;
        let mut k: usize = 0;
        while k < sub.len()
            invariant
                0 <= k <= sub.len(),
                source.spec_bytes().len() < usize::MAX,
                map@ == named_instance_records(source.spec_bytes(), section, proc_type@, sub@, k as int, m0),
            decreases sub.len() - k,
        {
            match &sub[k].table {
                Some(t) => {
                    let mut name: String = String::from_str(proc_type);
                    name.append(".");
                    name.append(sub[k].key.as_str());
                    record_field_lines(source, t, section, name.as_str(), map);
                },
                None => {},
            }
            k = k + 1;
        }
    } else {
        record_field_lines(source, sub, section, proc_type, map);
    }
}

/// Records every instance of a `[processor]` or `[analyzer]` table.
fn walk_instance_section(source: &str, types: &Vec<LaidOutEntry>, section: Section, map: &mut SpanMap)
    requires
        source.spec_bytes().len() < usize::MAX,
    ensures
        final(map)@ == section_records(source.spec_bytes(), section, types@, types@.len() as int, old(map)@),
{
    let ghost m0 = map@;
    let mut k: usize = 0;
    while k < types.len()
        invariant
            0 <= k <= types.len(),
            source.spec_bytes().len() < usize::MAX,
            map@ == section_records(source.spec_bytes(), section, types@, k as int, m0),
        decreases types.len() - k,
    {
        match &types[k].table {
            Some(t) => {
                walk_type(source, types[k].key.as_str(), t, section, map);
            },
            None => {},
        }
        k = k + 1;
    }
}

/// The `[header]` table of the root named `key`.
fn find_header_table<'a>(root: &'a Vec<LaidOutEntry>, key: &str) -> (r: Option<&'a Vec<LaidOutEntry>>)
    ensures
        match header_table(root@, key@) {
            Some(t) => (r matches Some(x) && x@ == t),
            None => r is None,
        },
{
    let mut i: usize = 0;
    while i < root.len()
        invariant
            0 <= i <= root.len(),
            first_named(root@, key@, 0) == first_named(root@, key@, i as int),
        decreases root.len() - i,
    {
        if str_eq(root[i].key.as_str(), key) {
            return match &root[i].table {
                Some(t) => Some(t),
                None => None,
            };
        }
        i = i + 1;
    }
    None
}

/// The span map of a project file: for every field of every `[processor]`
/// and `[analyzer]` instance, the line its key is written on (the value's
/// line when the key has no recorded place). A type whose table holds only
/// tables has named instances `type.name`; any other type's table is one
/// instance named after the type. Empty when the file does not parse.
pub fn build_span_map(source: &str) -> (r: SpanMap)
    requires
        source.spec_bytes().len() < usize::MAX,
    ensures
        r@ == span_map_spec(source@, source.spec_bytes()),
{
    let mut map = SpanMap::new();
    let root: Vec<LaidOutEntry> = match parse_layout(source) {
        Some(r) => r,
        None => {
            return map;
        },
    };
    match find_header_table(&root, "processor") {
        Some(t) => walk_instance_section(source, t, Section::Processor, &mut map),
        None => {},
    }
    match find_header_table(&root, "analyzer") {
        Some(t) => walk_instance_section(source, t, Section::Analyzer, &mut map),
        None => {},
    }
    map
}

/// A field keeps its origin, except that one set in the project file on a
/// line not known yet (0) takes the line the span map records for it.
pub open spec fn with_span(
    p: FieldProvenance,
    spans: Map<(Section, Seq<char>, Seq<char>), nat>,
    section: Section,
    instance: Seq<char>,
    field: Seq<char>,
) -> FieldProvenance {
    if p == (FieldProvenance::UserToml { line: 0 }) && spans.contains_key((section, instance, field)) {
        FieldProvenance::UserToml { line: spans[(section, instance, field)] as usize }
    } else {
        p
    }
}

/// The origins of an instance's fields once the span map's lines are put
/// in.
pub open spec fn spans_applied(
    prov: Map<Seq<char>, FieldProvenance>,
    spans: Map<(Section, Seq<char>, Seq<char>), nat>,
    section: Section,
    instance: Seq<char>,
) -> Map<Seq<char>, FieldProvenance> {
    Map::new(|k: Seq<char>| prov.contains_key(k), |k: Seq<char>| with_span(prov[k], spans, section, instance, k))
}

/// Puts the real line into every field of an instance the project file
/// sets whose line is not known yet, from the span map; other origins
/// stay.
pub fn apply_spans_to_instance(provenance: &mut ProvenanceMap, spans: &SpanMap, section: Section, instance: &str)
    requires
        old(provenance).wf(),
    ensures
        final(provenance).wf(),
        final(provenance)@ == spans_applied(old(provenance)@, spans@, section, instance@),
{
    let ghost p0 = provenance@;
    let mut names: Vec<String> = Vec::new();
    {
        let entries: &Vec<(String, FieldProvenance)> = provenance.entries();
        let mut j: usize = 0;
        while j < entries.len()
            invariant
                0 <= j <= entries.len(),
                strs(names@) == crate::config::provenance::entry_names(entries@).take(j as int),
            decreases entries.len() - j,
        {
            let ghost n0 = strs(names@);
            names.push(entries[j].0.clone());
            proof {
                assert(strs(names@) =~= n0.push(entries@[j as int].0@));
                assert(crate::config::provenance::entry_names(entries@).take(j + 1) =~= crate::config::provenance::entry_names(
                    entries@,
                ).take(j as int).push(entries@[j as int].0@));
            }
            j = j + 1;
        }
        proof {
            assert(crate::config::provenance::entry_names(entries@).take(entries@.len() as int)
                =~= crate::config::provenance::entry_names(entries@));
        }
    }
    let mut i: usize = 0;
    while i < names.len()
        invariant
            0 <= i <= names.len(),
            provenance.wf(),
            forall|k: Seq<char>| #[trigger] strs(names@).contains(k) <==> p0.contains_key(k),
            forall|k: Seq<char>| #[trigger] provenance@.contains_key(k) <==> p0.contains_key(k),
            forall|k: Seq<char>|
                #![trigger provenance@[k]]
                p0.contains_key(k) ==> provenance@[k] == if strs(names@).take(i as int).contains(k) {
                    with_span(p0[k], spans@, section, instance@, k)
                } else {
                    p0[k]
                },
        decreases names.len() - i,
    {
        let name: &str = names[i].as_str();
        let ghost before = provenance@;
        proof {
            assert(strs(names@).contains(strs(names@)[i as int]));
            assert(strs(names@)[i as int] == name@);
            assert(strs(names@).take(i + 1) =~= strs(names@).take(i as int).push(name@));
        }
        match provenance.get(name) {
            Some(FieldProvenance::UserToml { line }) => {
                if line == 0 {
                    match spans.get(section, instance, name) {
                        Some(known) => {
                            provenance.insert(name, FieldProvenance::UserToml { line: known });
                        },
                        None => {},
                    }
                }
            },
            _ => {},
        }
        proof {
            assert forall|k: Seq<char>|
                #![trigger provenance@[k]]
                p0.contains_key(k) implies provenance@[k] == if strs(names@).take(i + 1).contains(k) {
                    with_span(p0[k], spans@, section, instance@, k)
                } else {
                    p0[k]
                } by {
                vstd::seq_lib::lemma_seq_contains_after_push(strs(names@).take(i as int), name@, k);
                if k == name@ {
                    if strs(names@).take(i as int).contains(k) {
                        assert(before[k] == with_span(p0[k], spans@, section, instance@, k));
                    }
                }
            }
        }
        i = i + 1;
    }
    proof {
        assert(strs(names@).take(names@.len() as int) =~= strs(names@));
        assert(provenance@ =~= spans_applied(p0, spans@, section, instance@));
    }
}

/// The map the records make, each replacing any earlier one for its field.
pub open spec fn line_records(v: Seq<(String, usize)>) -> Map<Seq<char>, nat>
    decreases v.len(),
{
    if v.len() == 0 {
        Map::empty()
    } else {
        line_records(v.drop_last()).insert(v.last().0@, v.last().1 as nat)
    }
}

/// The map the section records make, each replacing any earlier one for
/// its section.
pub open spec fn section_lines(v: Seq<(String, Vec<(String, usize)>)>) -> Map<Seq<char>, Map<Seq<char>, nat>>
    decreases v.len(),
{
    if v.len() == 0 {
        Map::empty()
    } else {
        section_lines(v.drop_last()).insert(v.last().0@, line_records(v.last().1@))
    }
}

/// The line of each field of the sections other than `[processor]` and
/// `[analyzer]`, by section and field.
pub struct GlobalSpanMap {
    sections: Vec<(String, Vec<(String, usize)>)>,
}

impl View for GlobalSpanMap {
    type V = Map<Seq<char>, Map<Seq<char>, nat>>;

    closed spec fn view(&self) -> Map<Seq<char>, Map<Seq<char>, nat>> {
        section_lines(self.sections@)
    }
}

/// The last record for `field`.
fn last_line(v: &Vec<(String, usize)>, field: &str) -> (r: Option<usize>)
    ensures
        r matches Some(l) ==> line_records(v@).contains_key(field@) && line_records(v@)[field@] == l as nat,
        r is None ==> !line_records(v@).contains_key(field@),
{
    let mut i: usize = v.len();
    proof {
        assert(v@.take(i as int) =~= v@);
    }
    while i > 0
        invariant
            0 <= i <= v@.len(),
            line_records(v@).contains_key(field@) == line_records(v@.take(i as int)).contains_key(field@),
            line_records(v@).contains_key(field@) ==> line_records(v@)[field@] == line_records(v@.take(i as int))[field@],
        decreases i,
    {
        proof {
            let t = v@.take(i as int);
            assert(t.drop_last() =~= v@.take(i - 1));
            assert(t.last() == v@[i - 1]);
        }
        if str_eq(v[i - 1].0.as_str(), field) {
            return Some(v[i - 1].1);
        }
        i = i - 1;
    }
    None
}

impl GlobalSpanMap {
    /// No section recorded.
    pub fn new() -> (r: GlobalSpanMap)
        ensures
            r@ == Map::<Seq<char>, Map<Seq<char>, nat>>::empty(),
    {
        GlobalSpanMap { sections: Vec::new() }
    }

    /// The line recorded for `field` of `section`.
    pub fn get(&self, section: &str, field: &str) -> (r: Option<usize>)
        ensures
            r matches Some(l) ==> self@.contains_key(section@) && self@[section@].contains_key(field@)
                && self@[section@][field@] == l as nat,
            r is None ==> !(self@.contains_key(section@) && self@[section@].contains_key(field@)),
    {
        let mut i: usize = self.sections.len();
        proof {
            assert(self.sections@.take(i as int) =~= self.sections@);
        }
        while i > 0
            invariant
                0 <= i <= self.sections@.len(),
                section_lines(self.sections@).contains_key(section@) == section_lines(self.sections@.take(i as int)).contains_key(
                    section@,
                ),
                section_lines(self.sections@).contains_key(section@) ==> section_lines(self.sections@)[section@]
                    == section_lines(self.sections@.take(i as int))[section@],
            decreases i,
        {
            proof {
                let t = self.sections@.take(i as int);
                assert(t.drop_last() =~= self.sections@.take(i - 1));
                assert(t.last() == self.sections@[i - 1]);
            }
            if str_eq(self.sections[i - 1].0.as_str(), section) {
                return last_line(&self.sections[i - 1].1, field);
            }
            i = i - 1;
        }
        None
    }
}

/// The line of each field of a table, by field name.
pub open spec fn field_lines(bytes: Seq<u8>, fields: Seq<LaidOutEntry>) -> Map<Seq<char>, nat>
    decreases fields.len(),
{
    if fields.len() == 0 {
        Map::empty()
    } else {
        let prev = field_lines(bytes, fields.drop_last());
        match entry_line(bytes, fields.last()) {
            Some(l) => prev.insert(fields.last().key@, l),
            None => prev,
        }
    }
}

/// Some field of the table has a known line.
pub open spec fn any_line(bytes: Seq<u8>, fields: Seq<LaidOutEntry>) -> bool {
    exists|i: int| 0 <= i < fields.len() && (#[trigger] entry_line(bytes, fields[i])) is Some
}

/// The global span map of the first `k` root entries: each `[header]`
/// table other than `[processor]` and `[analyzer]` with the lines of its
/// fields, when some field has one.
pub open spec fn global_spans_upto(bytes: Seq<u8>, root: Seq<LaidOutEntry>, k: int) -> Map<Seq<char>, Map<Seq<char>, nat>>
    decreases k,
{
    if k <= 0 || k > root.len() {
        Map::empty()
    } else {
        let prev = global_spans_upto(bytes, root, k - 1);
        let e = root[k - 1];
        if e.key@ == "processor"@ || e.key@ == "analyzer"@ {
            prev
        } else {
            match e.table {
                Some(t) => if any_line(bytes, t@) {
                    prev.insert(e.key@, field_lines(bytes, t@))
                } else {
                    prev
                },
                None => prev,
            }
        }
    }
}

/// The global span map of a project file; empty when it does not parse.
pub open spec fn global_spans_spec(source: Seq<char>, bytes: Seq<u8>) -> Map<Seq<char>, Map<Seq<char>, nat>> {
    match toml_layout(source) {
        None => Map::empty(),
        Some(root) => global_spans_upto(bytes, root, root.len() as int),
    }
}

/// The lines of the fields of one table, as records.
fn table_lines(source: &str, fields: &Vec<LaidOutEntry>) -> (r: Vec<(String, usize)>)
    requires
        source.spec_bytes().len() < usize::MAX,
    ensures
        line_records(r@) == field_lines(source.spec_bytes(), fields@),
        r@.len() > 0 <==> any_line(source.spec_bytes(), fields@),
{
    let ghost bytes = source.spec_bytes();
    let mut r: Vec<(String, usize)> = Vec::new();
    let mut i: usize = 0;
    proof {
        assert(fields@.take(0) =~= Seq::<LaidOutEntry>::empty());
    }
    while i < fields.len()
        invariant
            0 <= i <= fields.len(),
            bytes == source.spec_bytes(),
            source.spec_bytes().len() < usize::MAX,
            line_records(r@) == field_lines(bytes, fields@.take(i as int)),
            r@.len() > 0 <==> any_line(bytes, fields@.take(i as int)),
        decreases fields.len() - i,
    {
        let ghost t = fields@.take(i + 1);
        proof {
            assert(t.drop_last() =~= fields@.take(i as int));
            assert(t.last() == fields@[i as int]);
        }
        match line_of(source, &fields[i]) {
            Some(line) => {
                let ghost r0 = r@;
                r.push((fields[i].key.clone(), line));
                proof {
                    assert(r@.drop_last() == r0);
                    assert(entry_line(bytes, t[i as int]) is Some);
                }
            },
            None => {
                proof {
                    assert forall|j: int| 0 <= j < t.len() && (#[trigger] entry_line(bytes, t[j])) is Some implies 0 <= j
                        < fields@.take(i as int).len() && entry_line(bytes, fields@.take(i as int)[j]) is Some by {
                        if j == i {
                            assert(t[j] == fields@[i as int]);
                        } else {
                            assert(t[j] == fields@.take(i as int)[j]);
                        }
                    }
                }
            },
        }
        proof {
            if any_line(bytes, fields@.take(i as int)) {
                let j = choose|j: int| 0 <= j < fields@.take(i as int).len() && (#[trigger] entry_line(bytes, fields@.take(i as int)[j])) is Some;
                assert(t[j] == fields@.take(i as int)[j]);
                assert(entry_line(bytes, t[j]) is Some);
            }
        }
        i = i + 1;
    }
    proof {
        assert(fields@.take(fields@.len() as int) =~= fields@);
    }
    r
}

/// The global span map of a project file: for each `[header]` table other
/// than `[processor]` and `[analyzer]`, the line each of its fields is
/// written on, for the tables where some field has one. Empty when the
/// file does not parse.
pub fn build_global_span_map(source: &str) -> (r: GlobalSpanMap)
    requires
        source.spec_bytes().len() < usize::MAX,
    ensures
        r@ == global_spans_spec(source@, source.spec_bytes()),
{
    let mut map = GlobalSpanMap::new();
    let root: Vec<LaidOutEntry> = match parse_layout(source) {
        Some(r) => r,
        None => {
            return map;
        },
    };
    let ghost bytes = source.spec_bytes();
    let mut k: usize = 0;
    while k < root.len()
        invariant
            0 <= k <= root.len(),
            bytes == source.spec_bytes(),
            source.spec_bytes().len() < usize::MAX,
            map@ == global_spans_upto(bytes, root@, k as int),
        decreases root.len() - k,
    {
        let name: &str = root[k].key.as_str();
        if !str_eq(name, "processor") && !str_eq(name, "analyzer") {
            match &root[k].table {
                Some(t) => {
                    let lines: Vec<(String, usize)> = table_lines(source, t);
                    if lines.len() > 0 {
                        let ghost s0 = map.sections@;
                        map.sections.push((root[k].key.clone(), lines));
                        proof {
                            assert(map.sections@.drop_last() == s0);
                        }
                    }
                },
                None => {},
            }
        }
        k = k + 1;
    }
    map
}

/// The origins of the fields of one top-level section: the line the
/// global span map records, else the default.
pub open spec fn section_origins(spans: Map<Seq<char>, Map<Seq<char>, nat>>, section: Seq<char>, fields: Seq<Seq<char>>) -> Map<
    Seq<char>,
    FieldProvenance,
> {
    Map::new(
        |k: Seq<char>| fields.contains(k),
        |k: Seq<char>|
            if spans.contains_key(section) && spans[section].contains_key(k) {
                FieldProvenance::UserToml { line: spans[section][k] as usize }
            } else {
                FieldProvenance::SerdeDefault
            },
    )
}

/// The origin of every field of every top-level section but `[processor]`
/// and `[analyzer]` (those are tracked per instance): `sections` lists each
/// section table with its effective fields, in order; a field the project
/// file writes has its line, any other is a default.
pub fn global_provenance(sections: &Vec<(String, Vec<String>)>, spans: &GlobalSpanMap) -> (r: Vec<(String, ProvenanceMap)>)
    ensures
        r@.len() <= sections@.len(),
        forall|i: int| 0 <= i < r@.len() ==> (#[trigger] r@[i]).1.wf(),
        r@.map_values(|e: (String, ProvenanceMap)| (e.0@, e.1@)) == kept_sections(sections@, spans@, sections@.len() as int),
{
    let mut r: Vec<(String, ProvenanceMap)> = Vec::new();
    let mut i: usize = 0;
    proof {
        assert(r@.map_values(|e: (String, ProvenanceMap)| (e.0@, e.1@)) =~= kept_sections(sections@, spans@, 0));
    }
    while i < sections.len()
        invariant
            0 <= i <= sections.len(),
            r@.len() <= i,
            forall|j: int| 0 <= j < r@.len() ==> (#[trigger] r@[j]).1.wf(),
            r@.map_values(|e: (String, ProvenanceMap)| (e.0@, e.1@)) == kept_sections(sections@, spans@, i as int),
        decreases sections.len() - i,
    {
        let name: &str = sections[i].0.as_str();
        if !str_eq(name, "processor") && !str_eq(name, "analyzer") {
            let fields: &Vec<String> = &sections[i].1;
            let mut map = ProvenanceMap::new();
            let mut j: usize = 0;
            while j < fields.len()
                invariant
                    0 <= j <= fields.len(),
                    map.wf(),
                    map@ == section_origins(spans@, name@, strs(fields@).take(j as int)),
                decreases fields.len() - j,
            {
                let ghost m0 = map@;
                let field: &str = fields[j].as_str();
                match spans.get(name, field) {
                    Some(line) => map.insert(field, FieldProvenance::UserToml { line }),
                    None => map.insert(field, FieldProvenance::SerdeDefault),
                }
                proof {
                    let t = strs(fields@).take(j + 1);
                    assert(t =~= strs(fields@).take(j as int).push(field@));
                    assert forall|k: Seq<char>| #[trigger] t.contains(k) <==> strs(fields@).take(j as int).contains(k) || k
                        == field@ by {
                        vstd::seq_lib::lemma_seq_contains_after_push(strs(fields@).take(j as int), field@, k);
                    }
                    assert(map@ =~= section_origins(spans@, name@, t));
                }
                j = j + 1;
            }
            proof {
                assert(strs(fields@).take(fields@.len() as int) =~= strs(fields@));
            }
            let ghost r0 = r@;
            r.push((sections[i].0.clone(), map));
            proof {
                assert(r@.map_values(|e: (String, ProvenanceMap)| (e.0@, e.1@)) =~= r0.map_values(
                    |e: (String, ProvenanceMap)| (e.0@, e.1@),
                ).push((name@, section_origins(spans@, name@, strs(sections@[i as int].1@)))));
            }
        }
        i = i + 1;
    }
    r
}

/// The sections among the first `k` that get origins, with them.
pub open spec fn kept_sections(
    sections: Seq<(String, Vec<String>)>,
    spans: Map<Seq<char>, Map<Seq<char>, nat>>,
    k: int,
) -> Seq<(Seq<char>, Map<Seq<char>, FieldProvenance>)>
    decreases k,
{
    if k <= 0 || k > sections.len() {
        Seq::empty()
    } else {
        let prev = kept_sections(sections, spans, k - 1);
        let s = sections[k - 1];
        if s.0@ == "processor"@ || s.0@ == "analyzer"@ {
            prev
        } else {
            prev.push((s.0@, section_origins(spans, s.0@, strs(s.1@))))
        }
    }
}

} // verus!
