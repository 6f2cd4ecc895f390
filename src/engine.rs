//! The engine's decisions: recovery of the index from segment contents, and
//! the write path (validate, encode, roll over, append, update the index) and
//! read path (key to record position) over the engine's bookkeeping. The
//! caller owns the segment files: it hands in their bytes and performs each
//! append that a plan asks for.
use vstd::prelude::*;

use crate::config::Config;
use crate::error::KvError;
use crate::index::{new_index, BTree, BTreeIterator, IndexType};
use crate::config::IteratorConfig;
use crate::record::{
    lemma_record_round_trip, record_at, encode_record, header_len, header_spec, lemma_header_encoded, window, read_record_head_buf, read_key_from_header, rec_len, tail,
    Record, RecordPos, RecordType, MAX_LEN,
};
use crate::storage::{gens_sorted, Storage, MAX_GEN};

verus! {

/// Replays the records of segment `gen` (contents `d`) from `off` on into `m`:
/// a set points its key at the record, a remove drops its key. The scan ends at
/// the end-of-records marker or at a record that runs past the end of `d`;
/// the result is the map and the offset where the scan ended.
pub open spec fn replay_seg(m: Map<Seq<u8>, RecordPos>, gen: u32, d: Seq<u8>, off: int) -> Result<
    (Map<Seq<u8>, RecordPos>, int),
    KvError,
>
    decreases d.len() - off,
{
    if off < 0 || off > d.len() {
        Ok((m, off))
    } else {
        match header_spec(tail(d, off)) {
            Err(e) => if e == KvError::ReadEOF {
                Ok((m, off))
            } else {
                Err(e)
            },
            Ok((t, k, v)) => {
                let total = rec_len(k, v);
                if off + total > d.len() {
                    Ok((m, off))
                } else {
                    let h = header_len(k, v);
                    let key = d.subrange(off + h, off + h + k);
                    let pos = RecordPos { gen, offset: off as u64 };
                    let m2 = if t == 1 {
                        m.insert(key, pos)
                    } else {
                        m.remove(key)
                    };
                    replay_seg(m2, gen, d, off + total)
                }
            },
        }
    }
}

/// The index after replaying the first `n` segments in order.
pub open spec fn replay_upto(gens: Seq<u32>, datas: Seq<Seq<u8>>, n: int) -> Result<
    Map<Seq<u8>, RecordPos>,
    KvError,
>
    decreases n,
{
    if n <= 0 {
        Ok(Map::empty())
    } else {
        match replay_upto(gens, datas, n - 1) {
            Err(e) => Err(e),
            Ok(m) => match replay_seg(m, gens[n - 1], datas[n - 1], 0) {
                Err(e) => Err(e),
                Ok((m2, end)) => Ok(m2),
            },
        }
    }
}

/// Where the scan of segment `j` ends.
pub open spec fn seg_end(gens: Seq<u32>, datas: Seq<Seq<u8>>, j: int) -> int {
    replay_seg(replay_upto(gens, datas, j).unwrap(), gens[j], datas[j], 0).unwrap().1
}

pub open spec fn gens_of(v: Seq<Storage>) -> Seq<u32> {
    Seq::new(v.len(), |i: int| v[i].gen)
}

pub open spec fn datas_of(v: Seq<Vec<u8>>) -> Seq<Seq<u8>> {
    Seq::new(v.len(), |i: int| v[i]@)
}

/// Replays one segment into `index`; returns where the scan ended.
fn replay_segment(index: &mut BTree, gen: u32, data: &[u8]) -> (r: Result<u64, KvError>)
    requires
        old(index).wf(),
    ensures
        final(index).wf(),
        match replay_seg(old(index)@, gen, data@, 0) {
            Ok((m, end)) => r == Ok::<u64, KvError>(end as u64) && final(index)@ == m && 0 <= end
                <= data@.len(),
            Err(e) => r == Err::<u64, KvError>(e),
        },
{
    let ghost m0 = index@;
    let ghost d = data@;
    let len = data.len() as u64;
    let mut off: u64 = 0;
    let mut done = false;
    while !done
        invariant
            index.wf(),
            m0 == old(index)@,
            d == data@,
            len == d.len(),
            off <= d.len(),
            done ==> replay_seg(m0, gen, d, 0) == Ok::<(Map<Seq<u8>, RecordPos>, int), KvError>(
                (index@, off as int),
            ),
            !done ==> replay_seg(m0, gen, d, 0) == replay_seg(index@, gen, d, off as int),
        decreases d.len() - off + (if done { 0int } else { 1int }),
    {
        match read_record_head_buf(data, off) {
            Err(e) => {
                if e == KvError::ReadEOF {
                    done = true;
                } else {
                    return Err(e);
                }
            },
            Ok(h) => {
                match read_key_from_header(data, off, &h) {
                    None => {
                        done = true;
                    },
                    Some(key) => {
                        let total = h.encoded_len();
                        let pos = RecordPos { gen, offset: off };
                        match h.record_type {
                            RecordType::Normal => index.put(key, pos),
                            _ => index.delete(key.as_slice()),
                        }
                        off = off + total;
                    },
                }
            },
        }
    }
    Ok(off)
}

/// Rebuilds the index from the segments in ascending generation order, where
/// `contents[i]` holds the bytes of `storages[i]`, and sets each segment's
/// offset to where its scan ended.
pub fn build_index_from_storage(
    storages: &mut Vec<Storage>,
    contents: &Vec<Vec<u8>>,
    index_type: IndexType,
) -> (r: Result<BTree, KvError>)
    requires
        old(storages)@.len() == contents@.len(),
    ensures
        match replay_upto(gens_of(old(storages)@), datas_of(contents@), contents@.len() as int) {
            Ok(m) => r matches Ok(index) && index.wf() && index@ == m && gens_of(final(storages)@)
                == gens_of(old(storages)@) && forall|j: int|
                0 <= j < contents@.len() ==> (#[trigger] final(storages)@[j]).offset == seg_end(
                    gens_of(old(storages)@),
                    datas_of(contents@),
                    j,
                ),
            Err(e) => r matches Err(e2) && e2 == e,
        },
{
    let ghost gens = gens_of(storages@);
    let ghost datas = datas_of(contents@);
    let mut index = new_index(index_type);
    let mut out: Vec<Storage> = Vec::new();
    let mut i: usize = 0;
    while i < storages.len()
        invariant
            gens == gens_of(storages@),
            datas == datas_of(contents@),
            storages@.len() == contents@.len(),
            i <= storages@.len(),
            index.wf(),
            replay_upto(gens, datas, i as int) == Ok::<Map<Seq<u8>, RecordPos>, KvError>(index@),
            out@.len() == i,
            forall|j: int| 0 <= j < i ==> (#[trigger] out@[j]).gen == gens[j],
            forall|j: int|
                0 <= j < i ==> (#[trigger] out@[j]).offset == seg_end(gens, datas, j),
        decreases storages@.len() - i,
    {
        let gen = storages[i].gen;
        assert(datas[i as int] == contents@[i as int]@);
        let ghost m_before = index@;
        let seg = contents[i].as_slice();
        assert(seg@ == datas[i as int]);
        let seg_len = seg.len();
        let end = match replay_segment(&mut index, gen, seg) {
            Ok(end) => end,
            Err(e) => {
                proof {
                    assert(replay_upto(gens, datas, i + 1) == Err::<Map<Seq<u8>, RecordPos>, KvError>(e));
                    lemma_replay_err(gens, datas, i as int + 1, storages@.len() as int);
                }
                return Err(e);
            },
        };
        proof {
            assert(replay_upto(gens, datas, i as int).unwrap() == m_before);
            let e = replay_seg(m_before, gen, datas[i as int], 0).unwrap().1;
            assert(0 <= e <= seg_len);
            assert(seg_end(gens, datas, i as int) == end as int);
        }
        let ghost out_before = out@;
        out.push(Storage { gen, offset: end });
        assert forall|j: int| 0 <= j < i + 1 implies (#[trigger] out@[j]).offset == seg_end(gens, datas, j)
            && out@[j].gen == gens[j] by {
            if j < i {
                assert(out@[j] == out_before[j]);
            }
        }
        i = i + 1;
    }
    assert(gens_of(out@) =~= gens);
    *storages = out;
    Ok(index)
}

/// Once a replay has failed, replaying more segments fails the same way.
pub proof fn lemma_replay_err(gens: Seq<u32>, datas: Seq<Seq<u8>>, i: int, n: int)
    requires
        replay_upto(gens, datas, i) is Err,
        i <= n,
    ensures
        replay_upto(gens, datas, n) == replay_upto(gens, datas, i),
    decreases n - i,
{
    if i < n {
        lemma_replay_err(gens, datas, i, n - 1);
    }
}

/// The bytes of one record to append to the active segment, and whether the
/// active segment must roll over first.
pub struct Append {
    pub key: Vec<u8>,
    pub data: Vec<u8>,
    pub record_type: RecordType,
    pub rollover: bool,
}

/// The engine's bookkeeping: the rollover threshold, the active segment, the
/// frozen segments in ascending generation order, and the index.
pub struct EngineState {
    pub storage_size: u64,
    pub active: Storage,
    pub older: Vec<Storage>,
    pub index: BTree,
}

/// Generations ascending and each below `g`.
pub open spec fn frozen_below(older: Seq<Storage>, g: u32) -> bool {
    gens_sorted(older) && forall|i: int| 0 <= i < older.len() ==> (#[trigger] older[i]).gen < g
}

/// Frozen and active generations follow each other one by one.
pub open spec fn contiguous(older: Seq<Storage>, active: Storage) -> bool {
    forall|i: int|
        0 <= i < older.len() ==> (#[trigger] older[i]).gen + (older.len() - i) == active.gen
}

impl EngineState {
    pub open spec fn wf(&self) -> bool {
        self.index.wf() && frozen_below(self.older@, self.active.gen)
    }

    /// Whether appending `len` bytes would carry the active segment past the threshold.
    pub open spec fn needs_rollover(&self, len: nat) -> bool {
        self.active.offset + len > self.storage_size
    }

    /// What appending a record of type `tag` gives: its bytes and whether it
    /// rolls the active segment over, or why it cannot be written.
    pub open spec fn plan_spec(&self, tag: u8, key: Seq<u8>, value: Seq<u8>) -> Result<
        (Seq<u8>, bool),
        KvError,
    > {
        if key.len() > MAX_LEN || value.len() > MAX_LEN {
            Err(KvError::EncodeError)
        } else {
            let data = encode_record(tag, key, value);
            let roll = self.needs_rollover(data.len());
            if roll && self.active.gen >= MAX_GEN {
                Err(KvError::InvalidPath)
            } else {
                Ok((data, roll))
            }
        }
    }

    /// Some segment, active or frozen, has generation `gen`.
    pub open spec fn has_segment(&self, gen: u32) -> bool {
        self.active.gen == gen || exists|i: int|
            0 <= i < self.older@.len() && (#[trigger] self.older@[i]).gen == gen
    }

    /// Opens the engine over the segments found, ascending by generation,
    /// where `contents[i]` holds the bytes of `storages[i]`. The last segment
    /// becomes the active one; with none, generation 0 is.
    pub fn open(config: &Config, storages: Vec<Storage>, contents: &Vec<Vec<u8>>) -> (r: Result<
        EngineState,
        KvError,
    >)
        requires
            storages@.len() == contents@.len(),
            gens_sorted(storages@),
        ensures
            ({
                let n = storages@.len() as int;
                let gens = gens_of(storages@);
                let datas = datas_of(contents@);
                match replay_upto(gens, datas, n) {
                    Ok(m) => r matches Ok(st) && st.wf() && st.index@ == m && st.storage_size
                        == config.storage_size && (n == 0 ==> st.active.gen == 0
                        && st.active.offset == 0 && st.older@.len() == 0) && (n > 0
                        ==> st.active.gen == gens[n - 1] && st.active.offset == seg_end(
                        gens,
                        datas,
                        n - 1,
                    ) && gens_of(st.older@) == gens.take(n - 1)),
                    Err(e) => r matches Err(e2) && e2 == e,
                }
            }),
    {
        let ghost gens = gens_of(storages@);
        let mut storages = storages;
        let index = build_index_from_storage(&mut storages, contents, config.index_type)?;
        let ghost after = storages@;
        assert(gens_of(after) == gens);
        assert forall|j: int| 0 <= j < after.len() implies (#[trigger] after[j]).gen == gens[j] by {
            assert(gens_of(after)[j] == after[j].gen);
        }
        let active = match storages.pop() {
            Some(s) => s,
            None => Storage::init_zero(),
        };
        assert(gens_of(storages@) =~= gens.take(storages@.len() as int));
        Ok(EngineState { storage_size: config.storage_size, active, older: storages, index })
    }

    fn plan(&self, record: Record) -> (r: Result<Append, KvError>)
        ensures
            match self.plan_spec(record.record_type.tag(), record.key@, record.value@) {
                Ok((data, roll)) => r matches Ok(a) && a.data@ == data && a.rollover == roll
                    && a.key@ == record.key@ && a.record_type == record.record_type,
                Err(e) => r matches Err(e2) && e2 == e,
            },
    {
        let data = record.encode()?;
        let len = data.len() as u64;
        let rollover = self.active.offset > self.storage_size || len > self.storage_size
            - self.active.offset;
        if rollover && self.active.gen >= MAX_GEN {
            return Err(KvError::InvalidPath);
        }
        Ok(Append { key: record.key, data, record_type: record.record_type, rollover })
    }

    /// Plans setting `key` to `value`: an empty key is refused.
    pub fn prepare_set(&self, key: Vec<u8>, value: Vec<u8>) -> (r: Result<Append, KvError>)
        ensures
            key@.len() == 0 ==> r == Err::<Append, KvError>(KvError::InvalidKey),
            key@.len() > 0 ==> match self.plan_spec(1, key@, value@) {
                Ok((data, roll)) => r matches Ok(a) && a.data@ == data && a.rollover == roll
                    && a.key@ == key@ && a.record_type == RecordType::Normal,
                Err(e) => r matches Err(e2) && e2 == e,
            },
    {
        if key.len() == 0 {
            return Err(KvError::InvalidKey);
        }
        self.plan(Record::new_set(key, value))
    }

    /// Plans the tombstone of `key`: an empty key, or one that is not
    /// present, is refused.
    pub fn prepare_delete(&self, key: Vec<u8>) -> (r: Result<Append, KvError>)
        requires
            self.wf(),
        ensures
            key@.len() == 0 || !self.index@.contains_key(key@) ==> r == Err::<Append, KvError>(
                KvError::InvalidKey,
            ),
            key@.len() > 0 && self.index@.contains_key(key@) ==> match self.plan_spec(
                2,
                key@,
                Seq::empty(),
            ) {
                Ok((data, roll)) => r matches Ok(a) && a.data@ == data && a.rollover == roll
                    && a.key@ == key@ && a.record_type == RecordType::Remove,
                Err(e) => r matches Err(e2) && e2 == e,
            },
    {
        if key.len() == 0 {
            return Err(KvError::InvalidKey);
        }
        if self.index.get(key.as_slice()).is_none() {
            return Err(KvError::InvalidKey);
        }
        self.plan(Record::new_remove(key))
    }

    /// Freezes the active segment and starts the next generation, empty.
    pub fn roll_over(&mut self)
        requires
            old(self).wf(),
        ensures
            final(self).wf(),
            final(self).index == old(self).index,
            final(self).storage_size == old(self).storage_size,
            old(self).active.gen < MAX_GEN ==> final(self).older@ == old(self).older@.push(
                old(self).active,
            ) && final(self).active.gen == old(self).active.gen + 1 && final(self).active.offset
                == 0,
            old(self).active.gen >= MAX_GEN ==> final(self).older@ == old(self).older@
                && final(self).active == old(self).active,
            contiguous(old(self).older@, old(self).active) ==> contiguous(
                final(self).older@,
                final(self).active,
            ),
            forall|g: u32| old(self).has_segment(g) ==> #[trigger] final(self).has_segment(g),
    {
        if self.active.gen >= MAX_GEN {
            return;
        }
        let next = Storage { gen: self.active.gen + 1, offset: 0 };
        let frozen = self.active;
        self.active = next;
        self.older.push(frozen);
        assert forall|g: u32| old(self).has_segment(g) implies #[trigger] self.has_segment(g) by {
            if old(self).active.gen == g {
                assert(self.older@[self.older@.len() - 1].gen == g);
            } else {
                let i = choose|i: int|
                    0 <= i < old(self).older@.len() && (#[trigger] old(self).older@[i]).gen == g;
                assert(self.older@[i].gen == g);
            }
        }
    }

    /// Records that the planned bytes were appended: the active offset
    /// advances past them and the index takes the record. Returns where the
    /// record starts, or nothing where the offset would overflow.
    pub fn commit(&mut self, a: &Append) -> (r: Option<RecordPos>)
        requires
            old(self).wf(),
        ensures
            final(self).wf(),
            final(self).storage_size == old(self).storage_size,
            final(self).older == old(self).older,
            final(self).active.gen == old(self).active.gen,
            old(self).active.offset + a.data@.len() > u64::MAX ==> r is None && final(self).active
                == old(self).active && final(self).index@ == old(self).index@,
            old(self).active.offset + a.data@.len() <= u64::MAX ==> {
                let pos = RecordPos { gen: old(self).active.gen, offset: old(self).active.offset };
                &&& r == Some(pos)
                &&& final(self).active.offset == old(self).active.offset + a.data@.len()
                &&& final(self).index@ == (if a.record_type == RecordType::Normal {
                    old(self).index@.insert(a.key@, pos)
                } else if a.record_type == RecordType::Remove {
                    old(self).index@.remove(a.key@)
                } else {
                    old(self).index@
                })
            },
    {
        let len = a.data.len() as u64;
        if len > u64::MAX - self.active.offset {
            return None;
        }
        let pos = RecordPos { gen: self.active.gen, offset: self.active.offset };
        self.active.write(len);
        match a.record_type {
            RecordType::Normal => self.index.put(copy_key(&a.key), pos),
            RecordType::Remove => self.index.delete(a.key.as_slice()),
            RecordType::UnexpectCommand => {},
        }
        Some(pos)
    }

    /// Where the latest record of `key` lies: an empty key, an absent key, or
    /// a position in no known segment is refused.
    pub fn locate(&self, key: &[u8]) -> (r: Result<RecordPos, KvError>)
        requires
            self.wf(),
        ensures
            key@.len() == 0 || !self.index@.contains_key(key@) ==> r == Err::<RecordPos, KvError>(
                KvError::InvalidKey,
            ),
            key@.len() > 0 && self.index@.contains_key(key@) ==> r == (if self.has_segment(
                self.index@[key@].gen,
            ) {
                Ok::<RecordPos, KvError>(self.index@[key@])
            } else {
                Err(KvError::InvalidKey)
            }),
    {
        if key.len() == 0 {
            return Err(KvError::InvalidKey);
        }
        let pos = match self.index.get(key) {
            Some(p) => p,
            None => {
                return Err(KvError::InvalidKey);
            },
        };
        if pos.gen == self.active.gen {
            return Ok(pos);
        }
        let mut i: usize = 0;
        while i < self.older.len()
            invariant
                i <= self.older@.len(),
                key@.len() > 0,
                self.index@.contains_key(key@),
                pos == self.index@[key@],
                pos.gen != self.active.gen,
                forall|j: int| 0 <= j < i ==> (#[trigger] self.older@[j]).gen != pos.gen,
            decreases self.older@.len() - i,
        {
            if self.older[i].gen == pos.gen {
                return Ok(pos);
            }
            i = i + 1;
        }
        Err(KvError::InvalidKey)
    }

    /// An ordered scan over a snapshot of the index.
    pub fn iter(&self, config: IteratorConfig) -> (r: BTreeIterator)
        requires
            self.wf(),
        ensures
            r.wf(),
            r.current_index == 0,
            r.config.prefix@ == config.prefix@,
            r.config.reverse == config.reverse,
            crate::index::entries_map(r.items@) == self.index@,
            crate::index::ordered(r.items@, config.reverse),
    {
        self.index.iterator(config)
    }
}

fn copy_key(key: &Vec<u8>) -> (r: Vec<u8>)
    ensures
        r@ == key@,
{
    vstd::slice::slice_to_vec(key.as_slice())
}

/// A logged mutation: type byte (1 set, 2 remove), key, value.
pub open spec fn valid_op(op: (u8, Seq<u8>, Seq<u8>)) -> bool {
    (op.0 == 1 || op.0 == 2) && op.1.len() > 0 && op.1.len() <= MAX_LEN && op.2.len() <= MAX_LEN
}

/// The bytes that appending the mutations one after another writes.
pub open spec fn enc_log(ops: Seq<(u8, Seq<u8>, Seq<u8>)>) -> Seq<u8>
    decreases ops.len(),
{
    if ops.len() == 0 {
        Seq::empty()
    } else {
        encode_record(ops[0].0, ops[0].1, ops[0].2) + enc_log(ops.drop_first())
    }
}

/// The index after one mutation whose record starts at `off` of segment `gen`.
pub open spec fn apply_op(m: Map<Seq<u8>, RecordPos>, gen: u32, off: int, op: (u8, Seq<u8>, Seq<u8>)) -> Map<
    Seq<u8>,
    RecordPos,
> {
    if op.0 == 1 {
        m.insert(op.1, RecordPos { gen, offset: off as u64 })
    } else {
        m.remove(op.1)
    }
}

/// The index after the mutations, written one after another from `off` on.
pub open spec fn apply_log(
    m: Map<Seq<u8>, RecordPos>,
    gen: u32,
    off: int,
    ops: Seq<(u8, Seq<u8>, Seq<u8>)>,
) -> Map<Seq<u8>, RecordPos>
    decreases ops.len(),
{
    if ops.len() == 0 {
        m
    } else {
        apply_log(
            apply_op(m, gen, off, ops[0]),
            gen,
            off + encode_record(ops[0].0, ops[0].1, ops[0].2).len(),
            ops.drop_first(),
        )
    }
}

/// Recovery rebuilds what was written: replaying a segment whose records
/// are the mutations written one after another, from where they begin, gives
/// the index that applying them in order gives, and the scan ends at the end
/// of the segment. Each committed write applies exactly this step to the
/// index, at the offset where its record was appended.
pub proof fn law_replay_log(
    m: Map<Seq<u8>, RecordPos>,
    gen: u32,
    pre: Seq<u8>,
    ops: Seq<(u8, Seq<u8>, Seq<u8>)>,
)
    requires
        forall|i: int| 0 <= i < ops.len() ==> valid_op(#[trigger] ops[i]),
        pre.len() + enc_log(ops).len() <= u64::MAX,
    ensures
        replay_seg(m, gen, pre + enc_log(ops), pre.len() as int) == Ok::<
            (Map<Seq<u8>, RecordPos>, int),
            KvError,
        >((apply_log(m, gen, pre.len() as int, ops), (pre.len() + enc_log(ops).len()) as int)),
    decreases ops.len(),
{
    let d = pre + enc_log(ops);
    let off = pre.len() as int;
    if ops.len() == 0 {
        assert(d =~= pre);
        assert(tail(d, off) =~= Seq::<u8>::empty());
        assert(window(tail(d, off))[0] == 0);
    } else {
        let op = ops[0];
        assert(valid_op(op));
        let e = encode_record(op.0, op.1, op.2);
        let rest = enc_log(ops.drop_first());
        assert(d =~= (pre + e) + rest);
        assert(tail(d, off) =~= e + rest);
        lemma_header_encoded(op.0, op.1, op.2, rest);
        let h = header_len(op.1.len(), op.2.len());
        assert(e =~= seq![op.0] + crate::record::varint(op.1.len()) + crate::record::varint(
            op.2.len(),
        ) + op.1 + op.2 + crate::record::be32(
            crate::record::crc32_of(crate::record::record_body(op.0, op.1, op.2)),
        ));
        assert(d.subrange(off + h, off + h + op.1.len()) =~= op.1);
        assert forall|i: int| 0 <= i < ops.drop_first().len() implies valid_op(
            #[trigger] ops.drop_first()[i],
        ) by {
            assert(ops.drop_first()[i] == ops[i + 1]);
        }
        law_replay_log(apply_op(m, gen, off, op), gen, pre + e, ops.drop_first());
    }
}

/// A set reads back: once `(k, v)` is appended at the end `d` of a segment
/// and the index takes it, as `commit` does, the index points `k` at that
/// record and the record there reads back as a set of `k` to `v`.
pub proof fn law_set_get(
    m: Map<Seq<u8>, RecordPos>,
    gen: u32,
    d: Seq<u8>,
    k: Seq<u8>,
    v: Seq<u8>,
    rest: Seq<u8>,
)
    requires
        k.len() > 0,
        k.len() <= MAX_LEN,
        v.len() <= MAX_LEN,
        d.len() <= u64::MAX,
    ensures
        ({
            let m2 = apply_op(m, gen, d.len() as int, (1u8, k, v));
            &&& m2.contains_key(k)
            &&& m2[k] == (RecordPos { gen, offset: d.len() as u64 })
            &&& record_at(d + encode_record(1, k, v) + rest, m2[k].offset as int) == Ok::<
                (u8, Seq<u8>, Seq<u8>),
                KvError,
            >((1u8, k, v))
        }),
{
    lemma_record_round_trip(d, 1, k, v, rest);
}

/// The latest set of a key wins over the ones before it.
pub proof fn law_overwrite(
    m: Map<Seq<u8>, RecordPos>,
    gen1: u32,
    off1: int,
    gen2: u32,
    off2: int,
    k: Seq<u8>,
    v1: Seq<u8>,
    v2: Seq<u8>,
)
    ensures
        apply_op(apply_op(m, gen1, off1, (1u8, k, v1)), gen2, off2, (1u8, k, v2))[k]
            == (RecordPos { gen: gen2, offset: off2 as u64 }),
{
}

/// After a remove the key is gone, and a later set brings it back with the
/// new record.
pub proof fn law_delete_then_set(
    m: Map<Seq<u8>, RecordPos>,
    gen: u32,
    off1: int,
    off2: int,
    k: Seq<u8>,
    v: Seq<u8>,
)
    ensures
        !apply_op(m, gen, off1, (2u8, k, Seq::empty())).contains_key(k),
        apply_op(apply_op(m, gen, off1, (2u8, k, Seq::empty())), gen, off2, (1u8, k, v))[k]
            == (RecordPos { gen, offset: off2 as u64 }),
{
}

pub open spec fn sum_lens(lens: Seq<nat>) -> nat
    decreases lens.len(),
{
    if lens.len() == 0 {
        0
    } else {
        lens[0] + sum_lens(lens.drop_first())
    }
}

/// The number of frozen segments after appending records of the given
/// lengths to an active segment at `offset`, with `frozen` before: an append
/// that would carry the active segment past `size` first rolls it over, as
/// the plans of `prepare_set` and `prepare_delete` ask and `roll_over` and
/// `commit` carry out.
pub open spec fn frozen_after(offset: nat, frozen: nat, size: nat, lens: Seq<nat>) -> nat
    decreases lens.len(),
{
    if lens.len() == 0 {
        frozen
    } else if offset + lens[0] > size {
        frozen_after(lens[0], frozen + 1, size, lens.drop_first())
    } else {
        frozen_after(offset + lens[0], frozen, size, lens.drop_first())
    }
}

pub proof fn lemma_frozen_mono(offset: nat, frozen: nat, size: nat, lens: Seq<nat>)
    ensures
        frozen_after(offset, frozen, size, lens) >= frozen,
    decreases lens.len(),
{
    if lens.len() > 0 {
        if offset + lens[0] > size {
            lemma_frozen_mono(lens[0], frozen + 1, size, lens.drop_first());
        } else {
            lemma_frozen_mono(offset + lens[0], frozen, size, lens.drop_first());
        }
    }
}

pub proof fn lemma_no_rollover(offset: nat, frozen: nat, size: nat, lens: Seq<nat>)
    requires
        offset <= size,
        frozen_after(offset, frozen, size, lens) == frozen,
    ensures
        offset + sum_lens(lens) <= size,
    decreases lens.len(),
{
    if lens.len() > 0 {
        if offset + lens[0] > size {
            lemma_frozen_mono(lens[0], frozen + 1, size, lens.drop_first());
        } else {
            lemma_no_rollover(offset + lens[0], frozen, size, lens.drop_first());
        }
    }
}

/// Writes into a fresh segment whose records total more than the threshold
/// leave at least two segments: some append rolls the active one over.
pub proof fn law_rollover_happens(size: nat, lens: Seq<nat>)
    requires
        sum_lens(lens) > size,
    ensures
        frozen_after(0, 0, size, lens) >= 1,
{
    lemma_frozen_mono(0, 0, size, lens);
    if frozen_after(0, 0, size, lens) == 0 {
        lemma_no_rollover(0, 0, size, lens);
    }
}

} // verus!
