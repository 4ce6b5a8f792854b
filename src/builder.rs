//! Decoding a table file into logical records.
//!
//! A file is a UTF-16LE header string followed by logical records.  A record
//! is the byte `M`, a little-endian entry count, and that many entries; the
//! first entry is a byte that gives the record's kind.  Each entry is a tag
//! byte and a payload.
use vstd::prelude::*;
use crate::text::{decode_utf16le, utf16le_text};

verus! {

/// Why a table file could not be loaded.
#[derive(Debug, Clone, Copy, PartialEq, Eq, Structural)]
pub enum LoadError {
    /// The file does not start with the expected header.
    BadHeader,
    /// The bytes end in the middle of an entry or record.
    Truncated,
    /// An entry tag, or a record's leading byte, is unknown.
    BadTag,
    /// A record's kind byte is missing or unknown.
    BadRecordDiscriminator,
    /// A symbol kind code is unknown.
    BadSymbolKind,
    /// An action kind code is unknown.
    BadActionType,
    /// An index lies outside its table.
    IndexOutOfRange,
    /// A table ends up with fewer entries than declared.
    CountMismatch,
    /// A record's entries have the wrong number or the wrong types.
    BadEntry,
    /// A string is not well-formed UTF-16.
    BadString,
    /// A character range ends before it starts.
    BadRange,
}

/// The kinds of entry.
#[derive(Debug, Clone, Copy, PartialEq, Eq, Structural)]
pub enum EntryType {
    Empty,
    Byte,
    Boolean,
    Integer,
    String,
}

/// The entry kind of tag byte `b`.
pub open spec fn entry_type_of(b: u8) -> Option<EntryType> {
    if b == 69 {
        Some(EntryType::Empty)
    } else if b == 98 {
        Some(EntryType::Byte)
    } else if b == 66 {
        Some(EntryType::Boolean)
    } else if b == 73 {
        Some(EntryType::Integer)
    } else if b == 83 {
        Some(EntryType::String)
    } else {
        None
    }
}

impl EntryType {
    pub fn from_u8(b: u8) -> (r: Option<EntryType>)
        ensures
            r == entry_type_of(b),
    {
        match b {
            69 => Some(EntryType::Empty),
            98 => Some(EntryType::Byte),
            66 => Some(EntryType::Boolean),
            73 => Some(EntryType::Integer),
            83 => Some(EntryType::String),
            _ => None,
        }
    }
}

/// The kinds of logical record.
#[derive(Debug, Clone, Copy, PartialEq, Eq, Structural)]
pub enum RecordType {
    Property,
    Counts,
    CharSet,
    Symbol,
    Group,
    Production,
    InitState,
    DFA,
    LALR,
}

/// The record kind of discriminator byte `b`.
pub open spec fn record_type_of(b: u8) -> Option<RecordType> {
    if b == 112 {
        Some(RecordType::Property)
    } else if b == 116 {
        Some(RecordType::Counts)
    } else if b == 99 {
        Some(RecordType::CharSet)
    } else if b == 83 {
        Some(RecordType::Symbol)
    } else if b == 103 {
        Some(RecordType::Group)
    } else if b == 82 {
        Some(RecordType::Production)
    } else if b == 73 {
        Some(RecordType::InitState)
    } else if b == 68 {
        Some(RecordType::DFA)
    } else if b == 76 {
        Some(RecordType::LALR)
    } else {
        None
    }
}

impl RecordType {
    pub fn from_u8(b: u8) -> (r: Option<RecordType>)
        ensures
            r == record_type_of(b),
    {
        match b {
            112 => Some(RecordType::Property),
            116 => Some(RecordType::Counts),
            99 => Some(RecordType::CharSet),
            83 => Some(RecordType::Symbol),
            103 => Some(RecordType::Group),
            82 => Some(RecordType::Production),
            73 => Some(RecordType::InitState),
            68 => Some(RecordType::DFA),
            76 => Some(RecordType::LALR),
            _ => None,
        }
    }
}

/// The value of an entry.
pub enum EntryValue {
    Empty,
    Byte(u8),
    Bool(bool),
    Integer(u16),
    Text(Seq<char>),
}

/// A decoded entry.
#[derive(Debug)]
pub enum RecordEntry {
    Empty,
    Byte(u8),
    Bool(bool),
    Integer(u16),
    String(String),
}

impl View for RecordEntry {
    type V = EntryValue;

    open spec fn view(&self) -> EntryValue {
        match self {
            RecordEntry::Empty => EntryValue::Empty,
            RecordEntry::Byte(b) => EntryValue::Byte(*b),
            RecordEntry::Bool(b) => EntryValue::Bool(*b),
            RecordEntry::Integer(i) => EntryValue::Integer(*i),
            RecordEntry::String(s) => EntryValue::Text(s@),
        }
    }
}

impl RecordEntry {
    /// The value of a byte entry.
    pub fn byte(&self) -> (r: Option<u8>)
        ensures
            r == match self@ {
                EntryValue::Byte(b) => Some(b),
                _ => None,
            },
    {
        match self {
            RecordEntry::Byte(b) => Some(*b),
            _ => None,
        }
    }

    /// The value of a boolean entry.
    pub fn bool(&self) -> (r: Option<bool>)
        ensures
            r == match self@ {
                EntryValue::Bool(b) => Some(b),
                _ => None,
            },
    {
        match self {
            RecordEntry::Bool(b) => Some(*b),
            _ => None,
        }
    }

    /// The value of an integer entry.
    pub fn integer(&self) -> (r: Option<u16>)
        ensures
            r == match self@ {
                EntryValue::Integer(i) => Some(i),
                _ => None,
            },
    {
        match self {
            RecordEntry::Integer(i) => Some(*i),
            _ => None,
        }
    }

    /// The value of an integer entry, as an index.
    pub fn as_usize(&self) -> (r: Option<usize>)
        ensures
            r == match self@ {
                EntryValue::Integer(i) => Some(i as usize),
                _ => None,
            },
    {
        match self {
            RecordEntry::Integer(i) => Some(*i as usize),
            _ => None,
        }
    }

    /// The text of a string entry.
    pub fn string(&self) -> (r: Option<String>)
        ensures
            r.is_some() == self@ is Text,
            r.is_some() ==> self@ == EntryValue::Text(r.unwrap()@),
    {
        match self {
            RecordEntry::String(s) => Some(s.clone()),
            _ => None,
        }
    }
}

/// A decoded logical record: its kind and the entries after the kind byte.
pub struct RecordView {
    pub kind: RecordType,
    pub entries: Seq<EntryValue>,
}

/// A logical record as read from a file.
#[derive(Debug)]
pub struct LogicalRecord {
    pub kind: RecordType,
    pub entries: Vec<RecordEntry>,
}

/// The views of a list of entries.
pub open spec fn entry_views(es: Seq<RecordEntry>) -> Seq<EntryValue> {
    es.map_values(|e: RecordEntry| e@)
}

impl LogicalRecord {
    /// A record of the given kind with no entries yet.
    pub fn new(kind: RecordType) -> (r: LogicalRecord)
        ensures
            r.kind == kind,
            r.entries@.len() == 0,
    {
        LogicalRecord { kind, entries: Vec::new() }
    }
}

impl View for LogicalRecord {
    type V = RecordView;

    open spec fn view(&self) -> RecordView {
        RecordView { kind: self.kind, entries: entry_views(self.entries@) }
    }
}

/// The little-endian 16-bit integer at `p`.
pub open spec fn u16_le(b: Seq<u8>, p: int) -> u16 {
    (b[p] as int + 256 * (b[p + 1] as int)) as u16
}

/// The position of the first 16-bit zero code unit at `q`, `q + 2`, ...
pub open spec fn terminator_from(b: Seq<u8>, q: int) -> Option<int>
    decreases b.len() - q,
{
    if q < 0 || q + 1 >= b.len() {
        None
    } else if b[q] == 0 && b[q + 1] == 0 {
        Some(q)
    } else {
        terminator_from(b, q + 2)
    }
}

/// The null-terminated UTF-16LE string at `p` and the position after its
/// terminator.
pub open spec fn string_at(b: Seq<u8>, p: int) -> Result<(Seq<char>, int), LoadError> {
    match terminator_from(b, p) {
        None => Err(LoadError::Truncated),
        Some(q) => match utf16le_text(b.subrange(p, q)) {
            None => Err(LoadError::BadString),
            Some(t) => Ok((t, q + 2)),
        },
    }
}

/// The entry at `p` and the position after it.
pub open spec fn entry_at(b: Seq<u8>, p: int) -> Result<(EntryValue, int), LoadError> {
    if p < 0 || p >= b.len() {
        Err(LoadError::Truncated)
    } else {
        match entry_type_of(b[p]) {
            None => Err(LoadError::BadTag),
            Some(EntryType::Empty) => Ok((EntryValue::Empty, p + 1)),
            Some(EntryType::Byte) => if p + 1 < b.len() {
                Ok((EntryValue::Byte(b[p + 1]), p + 2))
            } else {
                Err(LoadError::Truncated)
            },
            Some(EntryType::Boolean) => if p + 1 < b.len() {
                Ok((EntryValue::Bool(b[p + 1] != 0), p + 2))
            } else {
                Err(LoadError::Truncated)
            },
            Some(EntryType::Integer) => if p + 2 < b.len() {
                Ok((EntryValue::Integer(u16_le(b, p + 1)), p + 3))
            } else {
                Err(LoadError::Truncated)
            },
            Some(EntryType::String) => match string_at(b, p + 1) {
                Err(e) => Err(e),
                Ok((t, q)) => Ok((EntryValue::Text(t), q)),
            },
        }
    }
}

/// The `n` entries from `p` on and the position after them.
pub open spec fn entries_at(b: Seq<u8>, p: int, n: nat) -> Result<(Seq<EntryValue>, int), LoadError>
    decreases n,
{
    if n == 0 {
        Ok((Seq::empty(), p))
    } else {
        match entries_at(b, p, (n - 1) as nat) {
            Err(e) => Err(e),
            Ok((es, q)) => match entry_at(b, q) {
                Err(e) => Err(e),
                Ok((v, r)) => Ok((es.push(v), r)),
            },
        }
    }
}

proof fn lemma_entries_err(b: Seq<u8>, p: int, k: nat, n: nat)
    requires
        k <= n,
        entries_at(b, p, k).is_err(),
    ensures
        entries_at(b, p, n) == entries_at(b, p, k),
    decreases n,
{
    if n > k {
        lemma_entries_err(b, p, k, (n - 1) as nat);
    }
}

/// The logical record at `p` and the position after it.
pub open spec fn record_at(b: Seq<u8>, p: int) -> Result<(RecordView, int), LoadError> {
    if p < 0 || p >= b.len() {
        Err(LoadError::Truncated)
    } else if b[p] != 77 {
        Err(LoadError::BadTag)
    } else if p + 2 >= b.len() {
        Err(LoadError::Truncated)
    } else {
        let n = u16_le(b, p + 1);
        match entries_at(b, p + 3, n as nat) {
            Err(e) => Err(e),
            Ok((es, q)) => if n == 0 {
                Err(LoadError::BadRecordDiscriminator)
            } else {
                match es[0] {
                    EntryValue::Byte(k) => match record_type_of(k) {
                        Some(t) => Ok((RecordView { kind: t, entries: es.subrange(1, n as int) }, q)),
                        None => Err(LoadError::BadRecordDiscriminator),
                    },
                    _ => Err(LoadError::BadRecordDiscriminator),
                }
            },
        }
    }
}

/// The records from `p` to the end of the bytes.
pub open spec fn records_from(b: Seq<u8>, p: int) -> Result<Seq<RecordView>, LoadError>
    decreases b.len() - p,
{
    if p < 0 || p >= b.len() {
        Ok(Seq::empty())
    } else {
        match record_at(b, p) {
            Err(e) => Err(e),
            Ok((r, q)) => if q <= p || q > b.len() {
                Err(LoadError::Truncated)
            } else {
                match records_from(b, q) {
                    Err(e) => Err(e),
                    Ok(rs) => Ok(seq![r] + rs),
                }
            },
        }
    }
}

/// The header every table file starts with.
pub open spec fn egt_header() -> Seq<char> {
    "GOLD Parser Tables/v5.0"@
}

/// The position after a well-formed header.
pub open spec fn header_end(b: Seq<u8>) -> Result<int, LoadError> {
    match string_at(b, 0) {
        Ok((t, q)) => if t == egt_header() {
            Ok(q)
        } else {
            Err(LoadError::BadHeader)
        },
        Err(_) => Err(LoadError::BadHeader),
    }
}

/// The logical records of a table file.
pub open spec fn decode_file(b: Seq<u8>) -> Result<Seq<RecordView>, LoadError> {
    match header_end(b) {
        Err(e) => Err(e),
        Ok(p) => records_from(b, p),
    }
}

/// Reads a table file into logical records.
#[derive(Debug)]
pub struct Builder {
    bytes: Vec<u8>,
    pos: usize,
    records: Vec<LogicalRecord>,
    initialized: bool,
}

impl Builder {
    pub closed spec fn bytes_spec(&self) -> Seq<u8> {
        self.bytes@
    }

    pub closed spec fn pos_spec(&self) -> int {
        self.pos as int
    }

    /// The records read so far.
    pub closed spec fn records_spec(&self) -> Seq<RecordView> {
        self.records@.map_values(|r: LogicalRecord| r@)
    }

    pub closed spec fn initialized_spec(&self) -> bool {
        self.initialized
    }

    /// The position lies within the bytes.
    pub closed spec fn wf(&self) -> bool {
        self.pos <= self.bytes@.len()
    }

    /// A reader at the start of `bytes`.
    pub fn new(bytes: Vec<u8>) -> (r: Builder)
        ensures
            r.wf(),
            r.bytes_spec() == bytes@,
            r.pos_spec() == 0,
            r.records_spec().len() == 0,
            !r.initialized_spec(),
    {
        let r = Builder { bytes, pos: 0, records: Vec::new(), initialized: false };
        assert(r.records_spec() =~= Seq::empty());
        r
    }

    /// The byte at the current position, if any.
    pub fn peek_byte(&self) -> (r: Option<u8>)
        ensures
            self.pos_spec() < self.bytes_spec().len() ==> r == Some(self.bytes_spec()[self.pos_spec()]),
            self.pos_spec() >= self.bytes_spec().len() ==> r.is_none(),
    {
        if self.pos < self.bytes.len() {
            Some(self.bytes[self.pos])
        } else {
            None
        }
    }

    /// The little-endian integer at the current position, if two bytes remain.
    pub fn peek_u16(&self) -> (r: Option<u16>)
        ensures
            self.pos_spec() + 1 < self.bytes_spec().len() ==> r == Some(u16_le(self.bytes_spec(), self.pos_spec())),
            self.pos_spec() + 1 >= self.bytes_spec().len() ==> r.is_none(),
    {
        if self.pos < self.bytes.len() && self.bytes.len() - self.pos >= 2 {
            let lo = self.bytes[self.pos] as u16;
            let hi = self.bytes[self.pos + 1] as u16;
            Some(lo + hi * 256)
        } else {
            None
        }
    }

    /// Reads one byte.
    pub fn read_byte(&mut self) -> (r: Result<u8, LoadError>)
        requires
            old(self).wf(),
        ensures
            final(self).wf(),
            final(self).bytes_spec() == old(self).bytes_spec(),
            final(self).records_spec() == old(self).records_spec(),
            final(self).initialized_spec() == old(self).initialized_spec(),
            old(self).pos_spec() < old(self).bytes_spec().len() ==> r == Ok::<u8, LoadError>(old(self).bytes_spec()[old(self).pos_spec()])
                && final(self).pos_spec() == old(self).pos_spec() + 1,
            old(self).pos_spec() >= old(self).bytes_spec().len() ==> r == Err::<u8, LoadError>(LoadError::Truncated)
                && final(self).pos_spec() == old(self).pos_spec(),
    {
        if self.pos < self.bytes.len() {
            let b = self.bytes[self.pos];
            self.pos = self.pos + 1;
            Ok(b)
        } else {
            Err(LoadError::Truncated)
        }
    }

    /// Reads a little-endian 16-bit integer.
    pub fn read_u16(&mut self) -> (r: Result<u16, LoadError>)
        requires
            old(self).wf(),
        ensures
            final(self).wf(),
            final(self).bytes_spec() == old(self).bytes_spec(),
            final(self).records_spec() == old(self).records_spec(),
            final(self).initialized_spec() == old(self).initialized_spec(),
            old(self).pos_spec() + 1 < old(self).bytes_spec().len() ==> r == Ok::<u16, LoadError>(
                u16_le(old(self).bytes_spec(), old(self).pos_spec()),
            ) && final(self).pos_spec() == old(self).pos_spec() + 2,
            old(self).pos_spec() + 1 >= old(self).bytes_spec().len() ==> r == Err::<u16, LoadError>(LoadError::Truncated)
                && final(self).pos_spec() == old(self).pos_spec(),
    {
        if self.pos < self.bytes.len() && self.bytes.len() - self.pos >= 2 {
            let lo = self.bytes[self.pos] as u16;
            let hi = self.bytes[self.pos + 1] as u16;
            self.pos = self.pos + 2;
            Ok(lo + hi * 256)
        } else {
            Err(LoadError::Truncated)
        }
    }

    /// Reads a null-terminated UTF-16LE string.
    fn read_string(&mut self) -> (r: Result<String, LoadError>)
        requires
            old(self).wf(),
        ensures
            final(self).wf(),
            final(self).bytes_spec() == old(self).bytes_spec(),
            final(self).records_spec() == old(self).records_spec(),
            final(self).initialized_spec() == old(self).initialized_spec(),
            match string_at(old(self).bytes_spec(), old(self).pos_spec()) {
                Ok((t, q)) => r.is_ok() && r.unwrap()@ == t && final(self).pos_spec() == q,
                Err(e) => r == Err::<String, LoadError>(e),
            },
    {
        let start = self.pos;
        let mut q = start;
        loop
            invariant
                start == old(self).pos,
                self.bytes@ == old(self).bytes@,
                self.pos == start,
                start <= q,
                start <= self.bytes@.len(),
                terminator_from(self.bytes@, start as int) == terminator_from(self.bytes@, q as int),
            ensures
                self.bytes@ == old(self).bytes@,
                self.pos == start,
                q + 1 < self.bytes@.len(),
                terminator_from(self.bytes@, start as int) == Some(q as int),
            decreases self.bytes@.len() - q,
        {
            if q >= self.bytes.len() || self.bytes.len() - q < 2 {
                return Err(LoadError::Truncated);
            }
            if self.bytes[q] == 0 && self.bytes[q + 1] == 0 {
                break;
            }
            q = q + 2;
        }
        let len = self.bytes.len();
        let mut raw: Vec<u8> = Vec::new();
        let mut i = start;
        while i < q
            invariant
                start <= i <= q,
                q + 1 < self.bytes@.len(),
                raw@ == self.bytes@.subrange(start as int, i as int),
            decreases q - i,
        {
            raw.push(self.bytes[i]);
            i = i + 1;
            assert(raw@ =~= self.bytes@.subrange(start as int, i as int));
        }
        match decode_utf16le(raw) {
            Some(s) => {
                self.pos = q + 2;
                Ok(s)
            },
            None => Err(LoadError::BadString),
        }
    }

    /// Reads one entry: its tag byte, then its payload.
    pub fn read_entry(&mut self) -> (r: Result<RecordEntry, LoadError>)
        requires
            old(self).wf(),
        ensures
            final(self).wf(),
            final(self).bytes_spec() == old(self).bytes_spec(),
            final(self).records_spec() == old(self).records_spec(),
            final(self).initialized_spec() == old(self).initialized_spec(),
            match entry_at(old(self).bytes_spec(), old(self).pos_spec()) {
                Ok((v, q)) => r.is_ok() && r.unwrap()@ == v && final(self).pos_spec() == q,
                Err(e) => r.is_err() && r.unwrap_err() == e,
            },
    {
        let tag = match self.read_byte() {
            Ok(b) => b,
            Err(e) => {
                return Err(e);
            },
        };
        match EntryType::from_u8(tag) {
            None => Err(LoadError::BadTag),
            Some(EntryType::Empty) => Ok(RecordEntry::Empty),
            Some(EntryType::Byte) => match self.read_byte() {
                Ok(b) => Ok(RecordEntry::Byte(b)),
                Err(e) => Err(e),
            },
            Some(EntryType::Boolean) => match self.read_byte() {
                Ok(b) => Ok(RecordEntry::Bool(b != 0)),
                Err(e) => Err(e),
            },
            Some(EntryType::Integer) => match self.read_u16() {
                Ok(v) => Ok(RecordEntry::Integer(v)),
                Err(e) => Err(e),
            },
            Some(EntryType::String) => match self.read_string() {
                Ok(s) => Ok(RecordEntry::String(s)),
                Err(e) => Err(e),
            },
        }
    }

    /// Reads one logical record, starting at its `M` byte.
    pub fn read_logical_record(&mut self) -> (r: Result<LogicalRecord, LoadError>)
        requires
            old(self).wf(),
        ensures
            final(self).wf(),
            final(self).bytes_spec() == old(self).bytes_spec(),
            final(self).records_spec() == old(self).records_spec(),
            final(self).initialized_spec() == old(self).initialized_spec(),
            match record_at(old(self).bytes_spec(), old(self).pos_spec()) {
                Ok((v, q)) => r.is_ok() && r.unwrap()@ == v && final(self).pos_spec() == q,
                Err(e) => r.is_err() && r.unwrap_err() == e,
            },
    {
        let ghost b = self.bytes@;
        let ghost p = self.pos as int;
        let m = match self.read_byte() {
            Ok(m) => m,
            Err(e) => {
                return Err(e);
            },
        };
        if m != 77 {
            return Err(LoadError::BadTag);
        }
        let n = match self.read_u16() {
            Ok(n) => n,
            Err(e) => {
                return Err(e);
            },
        };
        let mut entries: Vec<RecordEntry> = Vec::new();
        let mut k: u16 = 0;
        assert(entries_at(b, p + 3, 0) == Ok::<(Seq<EntryValue>, int), LoadError>((Seq::empty(), p + 3)));
        assert(entry_views(entries@) =~= Seq::empty());
        while k < n
            invariant
                self.bytes@ == b,
                b == old(self).bytes@,
                p == old(self).pos as int,
                0 <= p && p + 2 < b.len() && b[p] == 77,
                self.wf(),
                self.records_spec() == old(self).records_spec(),
                self.initialized == old(self).initialized,
                0 <= k <= n,
                entries@.len() == k,
                n == u16_le(b, p + 1),
                entries_at(b, p + 3, k as nat) == Ok::<(Seq<EntryValue>, int), LoadError>((entry_views(entries@), self.pos as int)),
            decreases n - k,
        {
            let ghost before = entries@;
            match self.read_entry() {
                Ok(e) => {
                    entries.push(e);
                    assert(entry_views(entries@) =~= entry_views(before).push(e@));
                },
                Err(err) => {
                    assert(entries_at(b, p + 3, (k + 1) as nat) == Err::<(Seq<EntryValue>, int), LoadError>(err));
                    proof {
                        lemma_entries_err(b, p + 3, (k + 1) as nat, n as nat);
                    }
                    return Err(err);
                },
            }
            k = k + 1;
        }
        if n == 0 {
            return Err(LoadError::BadRecordDiscriminator);
        }
        let kind = match &entries[0] {
            RecordEntry::Byte(d) => match RecordType::from_u8(*d) {
                Some(t) => t,
                None => {
                    return Err(LoadError::BadRecordDiscriminator);
                },
            },
            _ => {
                return Err(LoadError::BadRecordDiscriminator);
            },
        };
        let ghost all = entries@;
        let rest = entries.split_off(1);
        assert(entry_views(rest@) =~= entry_views(all).subrange(1, n as int));
        Ok(LogicalRecord { kind, entries: rest })
    }

    /// Checks the header and reads every record that follows it.
    pub fn init(&mut self) -> (r: Result<(), LoadError>)
        ensures
            final(self).bytes_spec() == old(self).bytes_spec(),
            match decode_file(old(self).bytes_spec()) {
                Ok(rs) => r.is_ok() && final(self).records_spec() == rs && final(self).initialized_spec(),
                Err(e) => r == Err::<(), LoadError>(e),
            },
    {
        proof {
            reveal_strlit("GOLD Parser Tables/v5.0");
        }
        self.pos = 0;
        let header = match self.read_string() {
            Ok(h) => h,
            Err(_) => {
                return Err(LoadError::BadHeader);
            },
        };
        let expected = String::from_str("GOLD Parser Tables/v5.0");
        if header != expected {
            return Err(LoadError::BadHeader);
        }
        let ghost b = self.bytes@;
        let ghost start = self.pos as int;
        let mut records: Vec<LogicalRecord> = Vec::new();
        assert(records@.map_values(|r: LogicalRecord| r@) =~= Seq::<RecordView>::empty());
        while self.pos < self.bytes.len()
            invariant
                self.bytes@ == b,
                b == old(self).bytes@,
                self.wf(),
                start <= self.pos <= b.len(),
                header_end(b) == Ok::<int, LoadError>(start),
                ({
                    match records_from(b, start) {
                        Ok(all) => match records_from(b, self.pos as int) {
                            Ok(tail) => all == records@.map_values(|r: LogicalRecord| r@) + tail,
                            Err(_) => false,
                        },
                        Err(e) => records_from(b, self.pos as int) == Err::<Seq<RecordView>, LoadError>(e),
                    }
                }),
            decreases b.len() - self.pos,
        {
            let p0 = self.pos;
            let ghost before = records@;
            match self.read_logical_record() {
                Ok(rec) => {
                    if self.pos <= p0 {
                        return Err(LoadError::Truncated);
                    }
                    records.push(rec);
                    assert(records@.map_values(|r: LogicalRecord| r@) =~= before.map_values(|r: LogicalRecord| r@).push(rec@));
                    proof {
                        match records_from(b, start) {
                            Ok(all) => {
                                let tail = records_from(b, self.pos as int).unwrap();
                                assert(all == before.map_values(|r: LogicalRecord| r@) + (seq![rec@] + tail));
                                assert(all =~= records@.map_values(|r: LogicalRecord| r@) + tail);
                            },
                            Err(e) => {},
                        }
                    }
                },
                Err(e) => {
                    return Err(e);
                },
            }
        }
        proof {
            match records_from(b, start) {
                Ok(all) => {
                    assert(all =~= records@.map_values(|r: LogicalRecord| r@) + Seq::empty());
                },
                Err(e) => {},
            }
        }
        self.records = records;
        self.initialized = true;
        Ok(())
    }
}


impl Builder {
    /// Number of records read.
    pub fn record_count(&self) -> (r: usize)
        ensures
            r == self.records_spec().len(),
    {
        self.records.len()
    }

    /// The `i`-th record read.
    pub fn record(&self, i: usize) -> (r: &LogicalRecord)
        requires
            i < self.records_spec().len(),
        ensures
            r@ == self.records_spec()[i as int],
    {
        &self.records[i]
    }
}

} // verus!
