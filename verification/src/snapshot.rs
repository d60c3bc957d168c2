//! Snapshot records: flat, ordered field/value mappings.
//!
//! A snapshot is one observation appended to the telemetry log. Field names
//! are byte strings (UTF-8 text); numeric values are fixed-point integers
//! counting millionths, so that analytics stay exact.

use vstd::prelude::*;

verus! {

/// Fixed-point scale of numeric field values: one unit is represented
/// as this many millionths.
pub const MICRO_UNITS: i64 = 1_000_000;

/// One field value: a fixed-point number (in millionths), a byte string,
/// a boolean, or null.
pub enum FieldValue {
    Num(i64),
    Text(Vec<u8>),
    Flag(bool),
    Null,
}

/// Mathematical model of a field value.
pub enum FieldVal {
    Num(i64),
    Text(Seq<u8>),
    Flag(bool),
    Null,
}

impl View for FieldValue {
    type V = FieldVal;

    open spec fn view(&self) -> FieldVal {
        match self {
            FieldValue::Num(n) => FieldVal::Num(*n),
            FieldValue::Text(t) => FieldVal::Text(t@),
            FieldValue::Flag(b) => FieldVal::Flag(*b),
            FieldValue::Null => FieldVal::Null,
        }
    }
}

/// Model of a whole record: the fields in insertion order.
pub type RecordModel = Seq<(Seq<u8>, FieldVal)>;

/// A byte that may appear in a field name or text value: printable bytes,
/// everything at or above the space character, plus tab, newline and
/// carriage return (which the codec escapes).
pub open spec fn wf_byte(b: u8) -> bool {
    b >= 0x20 || b == 0x09 || b == 0x0a || b == 0x0d
}

pub open spec fn wf_text(s: Seq<u8>) -> bool {
    forall|i: int| 0 <= i < s.len() ==> wf_byte(s[i])
}

/// A value the codec can write and read back unchanged.
pub open spec fn wf_val(v: FieldVal) -> bool {
    match v {
        FieldVal::Num(n) => n != i64::MIN,
        FieldVal::Text(t) => wf_text(t),
        FieldVal::Flag(_) => true,
        FieldVal::Null => true,
    }
}

pub open spec fn wf_record(m: RecordModel) -> bool {
    forall|i: int| #![trigger m[i]] 0 <= i < m.len() ==> wf_text(m[i].0) && wf_val(m[i].1)
}

/// Looks the field list up from position `i` on; the first match wins.
pub open spec fn field_lookup_from(m: RecordModel, key: Seq<u8>, i: int) -> Option<FieldVal>
    decreases m.len() - i,
{
    if i < 0 || i >= m.len() {
        None
    } else if m[i].0 == key {
        Some(m[i].1)
    } else {
        field_lookup_from(m, key, i + 1)
    }
}

/// The value stored under `key`, if any (first occurrence wins).
pub open spec fn field_lookup(m: RecordModel, key: Seq<u8>) -> Option<FieldVal> {
    field_lookup_from(m, key, 0)
}

/// The numeric value stored under `key`, if the record has one there.
pub open spec fn num_lookup(m: RecordModel, key: Seq<u8>) -> Option<i64> {
    match field_lookup(m, key) {
        Some(FieldVal::Num(n)) => Some(n),
        _ => None,
    }
}

/// One structured observation: an ordered mapping from field name to value,
/// immutable once recorded.
pub struct SnapshotRecord {
    fields: Vec<(Vec<u8>, FieldValue)>,
}

impl View for SnapshotRecord {
    type V = RecordModel;

    closed spec fn view(&self) -> RecordModel {
        self.fields@.map_values(|p: (Vec<u8>, FieldValue)| (p.0@, p.1@))
    }
}

/// Compares two byte slices for equality.
pub fn bytes_eq(a: &[u8], b: &[u8]) -> (r: bool)
    ensures
        r == (a@ == b@),
{
    if a.len() != b.len() {
        assert(a@.len() != b@.len());
        return false;
    }
    let n = a.len();
    let mut i: usize = 0;
    while i < n
        invariant
            n == a@.len() == b@.len(),
            i <= n,
            forall|j: int| 0 <= j < i ==> a@[j] == b@[j],
        decreases n - i,
    {
        if a[i] != b[i] {
            return false;
        }
        i += 1;
    }
    assert(a@ =~= b@);
    true
}

/// Checks that every byte of `s` may appear in a field name or text value.
pub fn text_is_wf(s: &[u8]) -> (r: bool)
    ensures
        r == wf_text(s@),
{
    let n = s.len();
    let mut i: usize = 0;
    while i < n
        invariant
            n == s@.len(),
            i <= n,
            forall|j: int| 0 <= j < i ==> wf_byte(s@[j]),
        decreases n - i,
    {
        let b = s[i];
        if !(b >= 0x20 || b == 0x09 || b == 0x0a || b == 0x0d) {
            return false;
        }
        i += 1;
    }
    true
}

impl SnapshotRecord {
    /// An empty record.
    pub fn new() -> (r: SnapshotRecord)
        ensures
            r@ == Seq::<(Seq<u8>, FieldVal)>::empty(),
    {
        let r = SnapshotRecord { fields: Vec::new() };
        assert(r@ =~= Seq::<(Seq<u8>, FieldVal)>::empty());
        r
    }

    /// Appends a field if both the name and the value are well formed;
    /// otherwise leaves the record unchanged and reports failure.
    pub fn insert(&mut self, name: Vec<u8>, value: FieldValue) -> (ok: bool)
        ensures
            ok == (wf_text(name@) && wf_val(value@)),
            ok ==> final(self)@ == old(self)@.push((name@, value@)),
            !ok ==> final(self)@ == old(self)@,
    {
        let name_ok = text_is_wf(name.as_slice());
        let value_ok = match &value {
            FieldValue::Num(n) => *n != i64::MIN,
            FieldValue::Text(t) => text_is_wf(t.as_slice()),
            FieldValue::Flag(_) => true,
            FieldValue::Null => true,
        };
        if name_ok && value_ok {
            let ghost before = self@;
            let ghost pushed = (name@, value@);
            self.fields.push((name, value));
            assert(self@ =~= before.push(pushed));
            true
        } else {
            false
        }
    }

    /// Number of fields.
    pub fn field_count(&self) -> (r: usize)
        ensures
            r == self@.len(),
    {
        self.fields.len()
    }

    /// The value stored under `key`, if any (first occurrence wins).
    pub fn get(&self, key: &[u8]) -> (r: Option<&FieldValue>)
        ensures
            match r {
                Some(v) => field_lookup(self@, key@) == Some(v@),
                None => field_lookup(self@, key@) is None,
            },
    {
        let n = self.fields.len();
        let mut i: usize = 0;
        while i < n
            invariant
                n == self.fields@.len(),
                i <= n,
                field_lookup(self@, key@) == field_lookup_from(self@, key@, i as int),
            decreases n - i,
        {
            if bytes_eq(self.fields[i].0.as_slice(), key) {
                return Some(&self.fields[i].1);
            }
            i += 1;
        }
        None
    }

    /// The numeric value stored under `key`, if the record has one there.
    pub fn get_num(&self, key: &[u8]) -> (r: Option<i64>)
        ensures
            r == num_lookup(self@, key@),
    {
        match self.get(key) {
            Some(FieldValue::Num(n)) => Some(*n),
            _ => None,
        }
    }

    /// The underlying field list, for the codec.
    pub(crate) fn raw_fields(&self) -> (r: &Vec<(Vec<u8>, FieldValue)>)
        ensures
            r@.len() == self@.len(),
            forall|i: int|
                0 <= i < r@.len() ==> (#[trigger] self@[i]) == (r@[i].0@, r@[i].1@),
    {
        &self.fields
    }

    /// Builds a record from an already collected field list, for the codec.
    pub(crate) fn from_fields(fields: Vec<(Vec<u8>, FieldValue)>) -> (r: SnapshotRecord)
        ensures
            r@ == fields@.map_values(|p: (Vec<u8>, FieldValue)| (p.0@, p.1@)),
    {
        SnapshotRecord { fields }
    }

    /// Whether every field of this record survives a round trip through
    /// the codec.
    pub fn is_wf(&self) -> (r: bool)
        ensures
            r == wf_record(self@),
    {
        let n = self.fields.len();
        let mut i: usize = 0;
        while i < n
            invariant
                n == self.fields@.len(),
                i <= n,
                forall|j: int| #![trigger self@[j]] 0 <= j < i ==> wf_text(self@[j].0) && wf_val(
                    self@[j].1,
                ),
            decreases n - i,
        {
            assert(self@[i as int] == (self.fields@[i as int].0@, self.fields@[i as int].1@));
            if !text_is_wf(self.fields[i].0.as_slice()) {
                assert(!wf_text(self@[i as int].0));
                return false;
            }
            let value_ok = match &self.fields[i].1 {
                FieldValue::Num(n) => *n != i64::MIN,
                FieldValue::Text(t) => text_is_wf(t.as_slice()),
                FieldValue::Flag(_) => true,
                FieldValue::Null => true,
            };
            assert(value_ok == wf_val(self@[i as int].1));
            if !value_ok {
                assert(!wf_record(self@)) by {
                    assert(self@.len() == self.fields@.len());
                    assert((i as int) < self@.len());
                    assert(wf_record(self@) ==> wf_text(self@[i as int].0) && wf_val(
                        self@[i as int].1,
                    ));
                }
                return false;
            }
            i += 1;
        }
        true
    }
}

} // verus!
