//! Reading snapshots.

use vstd::prelude::*;
use vstd::slice::slice_subrange;

use crate::bytes;
use crate::bytes::read_le;
use crate::crc64;
use crate::crc64::crc64_redis;
use crate::persist_error::PersistError;
use crate::rdb_aux::{insert_lossy, RdbAux};
use crate::rdb_save::{
    RDB_OPCODE_AUX, RDB_OPCODE_EOF, RDB_OPCODE_EXPIRETIME, RDB_OPCODE_EXPIRETIME_MS,
    RDB_OPCODE_FREQ, RDB_OPCODE_FUNCTION2, RDB_OPCODE_IDLE, RDB_OPCODE_RESIZEDB,
    RDB_OPCODE_SELECTDB, RDB_VERSION,
};
use crate::rdb_types;
use crate::rdb_types::{RdbEntry, RdbEntryView};
use crate::rdb_values;
use crate::rdb_values::read_value;
use crate::rdb_wire;
use crate::rdb_wire::{rdb_decode_length, rdb_decode_string};
use crate::records;
use crate::records::read_number;
use crate::text;

verus! {

/// The bytes of the checksum.
pub const RDB_CHECKSUM_LEN: usize = 8;

// ---------------------------------------------------------------------------
// What a snapshot says
// ---------------------------------------------------------------------------

/// Four characters as a version: digits, the first of which may be a plus sign.
pub open spec fn version_at(data: Seq<u8>) -> Option<nat> {
    let digit = |i: int| 48 <= data[i] <= 57;
    let tail = (100 * (data[6] - 48) + 10 * (data[7] - 48) + (data[8] - 48)) as nat;
    if !(digit(6) && digit(7) && digit(8)) {
        None
    } else if data[5] == 43 {
        Some(tail)
    } else if digit(5) {
        Some((1000 * (data[5] - 48) + tail) as nat)
    } else {
        None
    }
}

/// The version of a snapshot, if it is one that can be read.
pub open spec fn known_version(data: Seq<u8>) -> Option<nat> {
    if data.len() < 9 + RDB_CHECKSUM_LEN || data.take(5) != seq![82u8, 69u8, 68u8, 73u8, 83u8] {
        None
    } else {
        match version_at(data) {
            None => None,
            Some(v) => if 1 <= v <= RDB_VERSION {
                Some(v)
            } else {
                None
            },
        }
    }
}

/// Where the reading of a snapshot stands.
#[verifier::ext_equal]
pub struct Loading {
    pub entries: Seq<RdbEntryView>,
    pub aux: Map<Seq<char>, Seq<char>>,
    pub functions: Seq<Seq<u8>>,
    /// The expiry of the next entry.
    pub expire_ms: Option<u64>,
    /// The database of the next entry.
    pub db: nat,
}

/// What one opcode or entry leads to.
pub enum LoadStep {
    Fail,
    Done(int),
    More(Loading, int),
}

/// The opcode may stand between an expiry and its entry.
pub open spec fn keeps_expiry(opcode: u8) -> bool {
    rdb_values::is_type_byte(opcode) || opcode == RDB_OPCODE_EXPIRETIME_MS || opcode
        == RDB_OPCODE_EXPIRETIME || opcode == RDB_OPCODE_IDLE || opcode == RDB_OPCODE_FREQ
}

/// The end: from version 5 on a checksum follows, and holds unless it is zero.
pub open spec fn end_step(version: nat, data: Seq<u8>, pos: int) -> LoadStep {
    if version < 5 {
        LoadStep::Done(pos)
    } else {
        match records::number_at(data, pos) {
            None => LoadStep::Fail,
            Some((sum, end)) => if sum == 0 || sum == crc64::crc64(data.take(pos)) {
                LoadStep::Done(end)
            } else {
                LoadStep::Fail
            },
        }
    }
}

/// An entry: its key and its value.
pub open spec fn entry_step(tag: u8, data: Seq<u8>, pos: int, st: Loading) -> LoadStep {
    match rdb_wire::string_at(data, pos) {
        None => LoadStep::Fail,
        Some((key, mid)) => match rdb_values::value_at(tag, data, mid) {
            None => LoadStep::Fail,
            Some((value, end)) => LoadStep::More(
                Loading {
                    entries: st.entries.push(
                        RdbEntryView { db: st.db, key, value, expire_ms: st.expire_ms },
                    ),
                    expire_ms: None,
                    ..st
                },
                end,
            ),
        },
    }
}

/// A number of four bytes at an offset.
pub open spec fn short_at(data: Seq<u8>, pos: int) -> Option<(u64, int)> {
    if 0 <= pos && pos + 4 <= data.len() {
        Some((bytes::le_at(data, pos, 4) as u64, pos + 4))
    } else {
        None
    }
}

/// What stands behind the opcode at `pos - 1`.
pub open spec fn opcode_step(version: nat, opcode: u8, data: Seq<u8>, pos: int, st: Loading) -> LoadStep {
    if opcode == RDB_OPCODE_EOF {
        end_step(version, data, pos)
    } else if opcode == RDB_OPCODE_AUX {
        match records::pair_at(data, pos) {
            None => LoadStep::Fail,
            Some((a, end)) => LoadStep::More(
                Loading {
                    aux: st.aux.insert(text::text_of(a.0), text::text_of(a.1)),
                    ..st
                },
                end,
            ),
        }
    } else if opcode == RDB_OPCODE_SELECTDB {
        match rdb_wire::length_at(data, pos) {
            None => LoadStep::Fail,
            Some((n, end)) => if n > usize::MAX {
                LoadStep::Fail
            } else {
                LoadStep::More(Loading { db: n, ..st }, end)
            },
        }
    } else if opcode == RDB_OPCODE_RESIZEDB {
        match rdb_wire::length_at(data, pos) {
            None => LoadStep::Fail,
            Some((_, mid)) => match rdb_wire::length_at(data, mid) {
                None => LoadStep::Fail,
                Some((_, end)) => LoadStep::More(st, end),
            },
        }
    } else if opcode == RDB_OPCODE_EXPIRETIME_MS {
        match records::number_at(data, pos) {
            None => LoadStep::Fail,
            Some((ms, end)) => LoadStep::More(Loading { expire_ms: Some(ms), ..st }, end),
        }
    } else if opcode == RDB_OPCODE_EXPIRETIME {
        match short_at(data, pos) {
            None => LoadStep::Fail,
            Some((secs, end)) => LoadStep::More(
                Loading { expire_ms: Some((secs * 1000) as u64), ..st },
                end,
            ),
        }
    } else if opcode == RDB_OPCODE_IDLE {
        match rdb_wire::length_at(data, pos) {
            None => LoadStep::Fail,
            Some((_, end)) => LoadStep::More(st, end),
        }
    } else if opcode == RDB_OPCODE_FREQ {
        if pos < data.len() {
            LoadStep::More(st, pos + 1)
        } else {
            LoadStep::Fail
        }
    } else if opcode == RDB_OPCODE_FUNCTION2 {
        match rdb_wire::string_at(data, pos) {
            None => LoadStep::Fail,
            Some((code, end)) => LoadStep::More(
                Loading { functions: st.functions.push(code), ..st },
                end,
            ),
        }
    } else if rdb_values::is_type_byte(opcode) {
        entry_step(opcode, data, pos, st)
    } else {
        LoadStep::Fail
    }
}

/// What the opcode or entry at `pos` leads to. An expiry must be followed by its entry.
#[verifier::opaque]
pub open spec fn load_step(version: nat, data: Seq<u8>, pos: int, st: Loading) -> LoadStep {
    if !(0 <= pos < data.len()) {
        LoadStep::Fail
    } else if st.expire_ms is Some && !keeps_expiry(data[pos]) {
        LoadStep::Fail
    } else {
        opcode_step(version, data[pos], data, pos + 1, st)
    }
}

/// The rest of a snapshot from `pos` on, with the offset behind it.
pub open spec fn load_from(version: nat, data: Seq<u8>, pos: int, st: Loading) -> Option<
    (Loading, int),
>
    decreases data.len() - pos,
{
    match load_step(version, data, pos, st) {
        LoadStep::Fail => None,
        LoadStep::Done(end) => Some((st, end)),
        LoadStep::More(next, end) => if pos < end <= data.len() {
            load_from(version, data, end, next)
        } else {
            None
        },
    }
}

/// Nothing read yet.
pub open spec fn nothing_loaded() -> Loading {
    Loading {
        entries: Seq::empty(),
        aux: Map::empty(),
        functions: Seq::empty(),
        expire_ms: None,
        db: 0,
    }
}

/// The snapshot that `data` starts with, and the offset behind it.
pub open spec fn snapshot_prefix(data: Seq<u8>) -> Option<(Loading, int)> {
    match known_version(data) {
        None => None,
        Some(version) => load_from(version, data, 9, nothing_loaded()),
    }
}

// ---------------------------------------------------------------------------
// Reading
// ---------------------------------------------------------------------------

/// A snapshot, and the offset behind it.
#[derive(Debug, Clone, PartialEq)]
pub struct RdbDecodeResult {
    pub entries: Vec<RdbEntry>,
    pub aux: RdbAux,
    pub consumed: usize,
    /// The sources of function libraries, in the order in which they stand.
    pub functions: Vec<Vec<u8>>,
}

impl RdbDecodeResult {
    /// The names of the auxiliary fields are in order.
    pub open spec fn wf(&self) -> bool {
        self.aux.wf()
    }

    /// The result says what was read.
    pub open spec fn says(&self, loaded: Loading, end: int) -> bool {
        &&& rdb_types::rdb_views(self.entries@) == loaded.entries
        &&& self.aux@ == loaded.aux
        &&& bytes::views(self.functions@) == loaded.functions
        &&& self.consumed == end
    }
}

fn read_version(data: &[u8]) -> (r: Option<u32>)
    ensures
        match r {
            Some(v) => known_version(data@) == Some(v as nat),
            None => known_version(data@) is None,
        },
        r is Some ==> data@.len() >= 9,
{
    if data.len() < 9 + RDB_CHECKSUM_LEN {
        return None;
    }
    if !(data[0] == 82 && data[1] == 69 && data[2] == 68 && data[3] == 73 && data[4] == 83) {
        proof {
            let magic = seq![82u8, 69u8, 68u8, 73u8, 83u8];
            if data@.take(5) == magic {
                assert(data@[0] == data@.take(5)[0]);
                assert(data@[1] == data@.take(5)[1]);
                assert(data@[2] == data@.take(5)[2]);
                assert(data@[3] == data@.take(5)[3]);
                assert(data@[4] == data@.take(5)[4]);
            }
        }
        return None;
    }
    assert(data@.take(5) =~= seq![82u8, 69u8, 68u8, 73u8, 83u8]);
    let mut i: usize = 6;
    while i < 9
        invariant
            6 <= i <= 9,
            data@.len() >= 9 + RDB_CHECKSUM_LEN,
            forall|k: int| 6 <= k < i ==> 48 <= #[trigger] data@[k] <= 57,
        decreases 9 - i,
    {
        if data[i] < 48 || data[i] > 57 {
            return None;
        }
        i = i + 1;
    }
    let tail: u32 = 100 * (data[6] as u32 - 48) + 10 * (data[7] as u32 - 48) + (data[8] as u32
        - 48);
    let version: u32 = if data[5] == 43 {
        tail
    } else if 48 <= data[5] && data[5] <= 57 {
        1000 * (data[5] as u32 - 48) + tail
    } else {
        return None;
    };
    if 1 <= version && version <= RDB_VERSION {
        Some(version)
    } else {
        None
    }
}

/// What reading one opcode or entry gives.
enum Progress {
    Fail,
    Done(usize),
    More(usize),
}

/// What is read so far.
struct Loader {
    entries: Vec<RdbEntry>,
    aux: RdbAux,
    functions: Vec<Vec<u8>>,
    expire_ms: Option<u64>,
    db: usize,
}

impl Loader {
    spec fn wf(&self) -> bool {
        self.aux.wf()
    }

    spec fn loading(&self) -> Loading {
        Loading {
            entries: rdb_types::rdb_views(self.entries@),
            aux: self.aux@,
            functions: bytes::views(self.functions@),
            expire_ms: self.expire_ms,
            db: self.db as nat,
        }
    }

    spec fn went(&self, before: Loading, step: LoadStep, p: Progress) -> bool {
        match step {
            LoadStep::Fail => p is Fail,
            LoadStep::Done(end) => p == Progress::Done(end as usize) && 0 <= end <= usize::MAX
                && self.loading() == before,
            LoadStep::More(next, end) => p == Progress::More(end as usize) && 0 <= end <= usize::MAX
                && self.loading() == next,
        }
    }

    fn read_end(&self, version: u32, data: &[u8], pos: usize) -> (p: Progress)
        requires
            pos <= data@.len(),
        ensures
            self.went(self.loading(), end_step(version as nat, data@, pos as int), p),
            p matches Progress::Done(end) ==> pos <= end <= data@.len(),
            !(p is More),
    {
        if version < 5 {
            return Progress::Done(pos);
        }
        match read_number(data, pos) {
            None => Progress::Fail,
            Some((sum, end)) => {
                let body: &[u8] = slice_subrange(data, 0, pos);
                assert(body@ =~= data@.take(pos as int));
                if sum == 0 || sum == crc64_redis(body) {
                    Progress::Done(end)
                } else {
                    Progress::Fail
                }
            },
        }
    }

    fn read_entry(&mut self, tag: u8, data: &[u8], pos: usize) -> (p: Progress)
        requires
            old(self).wf(),
            pos <= data@.len(),
        ensures
            final(self).wf(),
            final(self).went(
                old(self).loading(),
                entry_step(tag, data@, pos as int, old(self).loading()),
                p,
            ),
            p matches Progress::More(end) ==> pos <= end <= data@.len(),
            !(p is Done),
    {
        let (key, mid) = match rdb_decode_string(data, pos) {
            None => {
                return Progress::Fail;
            },
            Some(found) => found,
        };
        match read_value(tag, data, mid) {
            None => Progress::Fail,
            Some((value, end)) => {
                let ghost before = self.entries@;
                let entry = RdbEntry { db: self.db, key, value, expire_ms: self.expire_ms };
                let ghost e = entry@;
                self.entries.push(entry);
                self.expire_ms = None;
                assert(rdb_types::rdb_views(self.entries@) =~= rdb_types::rdb_views(before).push(e));
                Progress::More(end)
            },
        }
    }

    fn read_aux(&mut self, data: &[u8], pos: usize) -> (p: Progress)
        requires
            old(self).wf(),
            pos <= data@.len(),
        ensures
            final(self).wf(),
            final(self).went(
                old(self).loading(),
                opcode_step(11, RDB_OPCODE_AUX, data@, pos as int, old(self).loading()),
                p,
            ),
            p matches Progress::More(end) ==> pos <= end <= data@.len(),
            !(p is Done),
    {
        let (name, mid) = match rdb_decode_string(data, pos) {
            None => {
                return Progress::Fail;
            },
            Some(found) => found,
        };
        let (value, end) = match rdb_decode_string(data, mid) {
            None => {
                return Progress::Fail;
            },
            Some(found) => found,
        };
        insert_lossy(&mut self.aux, name.as_slice(), value.as_slice());
        Progress::More(end)
    }

    fn read_plain(&mut self, opcode: u8, data: &[u8], pos: usize) -> (p: Progress)
        requires
            old(self).wf(),
            pos <= data@.len(),
            opcode == RDB_OPCODE_SELECTDB || opcode == RDB_OPCODE_RESIZEDB || opcode
                == RDB_OPCODE_IDLE || opcode == RDB_OPCODE_FREQ,
        ensures
            final(self).wf(),
            final(self).went(
                old(self).loading(),
                opcode_step(11, opcode, data@, pos as int, old(self).loading()),
                p,
            ),
            p matches Progress::More(end) ==> pos <= end <= data@.len(),
            !(p is Done),
    {
        if opcode == RDB_OPCODE_FREQ {
            if pos < data.len() {
                return Progress::More(pos + 1);
            }
            return Progress::Fail;
        }
        let (n, mid) = match rdb_decode_length(data, pos) {
            None => {
                return Progress::Fail;
            },
            Some(found) => found,
        };
        if opcode == RDB_OPCODE_SELECTDB {
            if n > usize::MAX as u64 {
                return Progress::Fail;
            }
            self.db = n as usize;
            return Progress::More(mid);
        }
        if opcode == RDB_OPCODE_IDLE {
            return Progress::More(mid);
        }
        match rdb_decode_length(data, mid) {
            None => Progress::Fail,
            Some((_, end)) => Progress::More(end),
        }
    }

    fn read_expiry(&mut self, opcode: u8, data: &[u8], pos: usize) -> (p: Progress)
        requires
            old(self).wf(),
            pos <= data@.len(),
            opcode == RDB_OPCODE_EXPIRETIME_MS || opcode == RDB_OPCODE_EXPIRETIME,
        ensures
            final(self).wf(),
            final(self).went(
                old(self).loading(),
                opcode_step(11, opcode, data@, pos as int, old(self).loading()),
                p,
            ),
            p matches Progress::More(end) ==> pos <= end <= data@.len(),
            !(p is Done),
    {
        let len: usize = data.len();
        if opcode == RDB_OPCODE_EXPIRETIME_MS {
            return match read_number(data, pos) {
                None => Progress::Fail,
                Some((ms, end)) => {
                    self.expire_ms = Some(ms);
                    Progress::More(end)
                },
            };
        }
        if len - pos < 4 {
            return Progress::Fail;
        }
        proof {
            bytes::lemma_pow256_values();
        }
        let secs: u64 = read_le(data, pos, 4);
        self.expire_ms = Some(secs * 1000);
        Progress::More(pos + 4)
    }

    fn read_function(&mut self, data: &[u8], pos: usize) -> (p: Progress)
        requires
            old(self).wf(),
            pos <= data@.len(),
        ensures
            final(self).wf(),
            final(self).went(
                old(self).loading(),
                opcode_step(11, RDB_OPCODE_FUNCTION2, data@, pos as int, old(self).loading()),
                p,
            ),
            p matches Progress::More(end) ==> pos <= end <= data@.len(),
            !(p is Done),
    {
        match rdb_decode_string(data, pos) {
            None => Progress::Fail,
            Some((code, end)) => {
                let ghost before = self.functions@;
                let ghost c = code@;
                self.functions.push(code);
                assert(bytes::views(self.functions@) =~= bytes::views(before).push(c));
                Progress::More(end)
            },
        }
    }

    /// Reads one opcode or entry.
    fn read_step(&mut self, version: u32, data: &[u8], pos: usize) -> (p: Progress)
        requires
            old(self).wf(),
            pos < data@.len(),
        ensures
            final(self).wf(),
            final(self).went(
                old(self).loading(),
                load_step(version as nat, data@, pos as int, old(self).loading()),
                p,
            ),
            p matches Progress::More(end) ==> pos < end <= data@.len(),
            p matches Progress::Done(end) ==> pos < end <= data@.len(),
    {
        proof {
            reveal(load_step);
        }
        let opcode: u8 = data[pos];
        let at: usize = pos + 1;
        let is_type: bool = opcode <= 5 || (9 <= opcode && opcode <= 21) || opcode == 100;
        if self.expire_ms.is_some() && !is_type && opcode != RDB_OPCODE_EXPIRETIME_MS && opcode
            != RDB_OPCODE_EXPIRETIME && opcode != RDB_OPCODE_IDLE && opcode != RDB_OPCODE_FREQ {
            return Progress::Fail;
        }
        match opcode {
            RDB_OPCODE_EOF => self.read_end(version, data, at),
            RDB_OPCODE_AUX => self.read_aux(data, at),
            RDB_OPCODE_SELECTDB | RDB_OPCODE_RESIZEDB | RDB_OPCODE_IDLE
            | RDB_OPCODE_FREQ => self.read_plain(opcode, data, at),
            RDB_OPCODE_EXPIRETIME_MS | RDB_OPCODE_EXPIRETIME => self.read_expiry(opcode, data, at),
            RDB_OPCODE_FUNCTION2 => self.read_function(data, at),
            _ => if is_type {
                self.read_entry(opcode, data, at)
            } else {
                Progress::Fail
            },
        }
    }
}

/// Reads the snapshot that `data` starts with. What follows it is left alone.
pub fn decode_rdb_prefix(data: &[u8]) -> (r: Result<RdbDecodeResult, PersistError>)
    ensures
        match snapshot_prefix(data@) {
            Some((loaded, end)) => r matches Ok(result) && result.wf() && result.says(loaded, end)
                && 9 <= end <= data@.len(),
            None => r == Err::<RdbDecodeResult, PersistError>(PersistError::InvalidFrame),
        },
{
    let version: u32 = match read_version(data) {
        None => {
            return Err(PersistError::InvalidFrame);
        },
        Some(version) => version,
    };
    let mut loader = Loader {
        entries: Vec::new(),
        aux: RdbAux::new(),
        functions: Vec::new(),
        expire_ms: None,
        db: 0,
    };
    let ghost whole = snapshot_prefix(data@);
    let mut pos: usize = 9;
    assert(loader.loading() =~= nothing_loaded());
    while pos < data.len()
        invariant
            9 <= pos <= data@.len(),
            loader.wf(),
            whole == snapshot_prefix(data@),
            whole == load_from(version as nat, data@, pos as int, loader.loading()),
        decreases data@.len() - pos,
    {
        match loader.read_step(version, data, pos) {
            Progress::Fail => {
                return Err(PersistError::InvalidFrame);
            },
            Progress::Done(end) => {
                return Ok(
                    RdbDecodeResult {
                        entries: loader.entries,
                        aux: loader.aux,
                        consumed: end,
                        functions: loader.functions,
                    },
                );
            },
            Progress::More(end) => {
                pos = end;
            },
        }
    }
    proof {
        reveal(load_step);
    }
    Err(PersistError::InvalidFrame)
}

/// Reads a snapshot that takes all of `data`, with its function libraries.
pub fn decode_rdb_whole(data: &[u8]) -> (r: Result<RdbDecodeResult, PersistError>)
    ensures
        match snapshot_prefix(data@) {
            Some((loaded, end)) => if end == data@.len() {
                r matches Ok(result) && result.wf() && result.says(loaded, end)
            } else {
                r == Err::<RdbDecodeResult, PersistError>(PersistError::InvalidFrame)
            },
            None => r == Err::<RdbDecodeResult, PersistError>(PersistError::InvalidFrame),
        },
{
    match decode_rdb_prefix(data) {
        Err(e) => Err(e),
        Ok(result) => if result.consumed != data.len() {
            Err(PersistError::InvalidFrame)
        } else {
            Ok(result)
        },
    }
}

/// Reads a snapshot that takes all of `data`.
pub fn decode_rdb(data: &[u8]) -> (r: Result<(Vec<RdbEntry>, RdbAux), PersistError>)
    ensures
        match snapshot_prefix(data@) {
            Some((loaded, end)) => if end == data@.len() {
                r matches Ok((entries, aux)) && rdb_types::rdb_views(entries@) == loaded.entries
                    && aux@ == loaded.aux && aux.wf()
            } else {
                r == Err::<(Vec<RdbEntry>, RdbAux), PersistError>(PersistError::InvalidFrame)
            },
            None => r == Err::<(Vec<RdbEntry>, RdbAux), PersistError>(PersistError::InvalidFrame),
        },
{
    match decode_rdb_whole(data) {
        Err(e) => Err(e),
        Ok(result) => Ok((result.entries, result.aux)),
    }
}

} // verus!
