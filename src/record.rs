//! The on-disk record format:
//! `type (1 byte) | key length (varint) | value length (varint) | key | value | crc32 (4 bytes, big-endian)`.
//! The checksum covers every byte before it.
use vstd::prelude::*;
use vstd::slice::{slice_subrange, slice_to_vec};

use crate::error::KvError;

verus! {

/// The largest key or value length that a record can carry.
pub const MAX_LEN: u64 = 4294967295;

/// Bytes read for a header: the type byte and two varints of at most five bytes.
pub const HEADER_WINDOW: u64 = 11;

#[derive(Clone, Copy, Debug, PartialEq, Eq, Structural)]
pub enum RecordType {
    UnexpectCommand,
    Normal,
    Remove,
}

impl RecordType {
    /// The byte that stands for this type on disk.
    pub open spec fn tag(self) -> u8 {
        match self {
            RecordType::UnexpectCommand => 0,
            RecordType::Normal => 1,
            RecordType::Remove => 2,
        }
    }

    pub open spec fn from_tag(b: u8) -> RecordType {
        if b == 1 {
            RecordType::Normal
        } else if b == 2 {
            RecordType::Remove
        } else {
            RecordType::UnexpectCommand
        }
    }

    pub fn to_u8(self) -> (r: u8)
        ensures
            r == self.tag(),
    {
        match self {
            RecordType::UnexpectCommand => 0,
            RecordType::Normal => 1,
            RecordType::Remove => 2,
        }
    }
}

impl From<u8> for RecordType {
    fn from(value: u8) -> (r: RecordType) {
        if value == 1 {
            RecordType::Normal
        } else if value == 2 {
            RecordType::Remove
        } else {
            RecordType::UnexpectCommand
        }
    }
}

impl vstd::std_specs::convert::FromSpecImpl<u8> for RecordType {
    open spec fn obeys_from_spec() -> bool {
        true
    }

    open spec fn from_spec(v: u8) -> RecordType {
        RecordType::from_tag(v)
    }
}

/// Where a record starts: the segment's generation and the byte offset in it.
#[derive(Clone, Copy, Debug, PartialEq, Eq, Structural)]
pub struct RecordPos {
    pub gen: u32,
    pub offset: u64,
}

/// The base-128 varint of `n`: seven bits per byte, low bits first, the high
/// bit set on every byte but the last.
pub open spec fn varint(n: nat) -> Seq<u8>
    decreases n,
{
    if n < 128 {
        seq![n as u8]
    } else {
        seq![((n % 128) + 128) as u8] + varint(n / 128)
    }
}

/// `128` to the power `f`: the values that a varint of `f` bytes can hold.
pub open spec fn cap(f: nat) -> nat
    decreases f,
{
    if f == 0 {
        1
    } else {
        128 * cap((f - 1) as nat)
    }
}

/// Reads a varint of at most `fuel` bytes from the front of `s`: its value and
/// how many bytes it took.
pub open spec fn varint_dec(s: Seq<u8>, fuel: nat) -> Option<(nat, nat)>
    decreases fuel,
{
    if fuel == 0 || s.len() == 0 {
        None
    } else if s[0] < 128 {
        Some((s[0] as nat, 1))
    } else {
        match varint_dec(s.drop_first(), (fuel - 1) as nat) {
            Some((v, l)) => Some((((s[0] - 128) as nat + 128 * v) as nat, l + 1)),
            None => None,
        }
    }
}

pub open spec fn be32(x: u32) -> Seq<u8> {
    seq![(x >> 24) as u8, (x >> 16) as u8, (x >> 8) as u8, x as u8]
}

/// What the checksum covers: type, both lengths, key and value.
pub open spec fn record_body(tag: u8, key: Seq<u8>, value: Seq<u8>) -> Seq<u8> {
    seq![tag] + varint(key.len()) + varint(value.len()) + key + value
}

/// The IEEE CRC-32 of a byte sequence.
pub uninterp spec fn crc32_of(data: Seq<u8>) -> u32;

/// A whole record as it is written.
pub open spec fn encode_record(tag: u8, key: Seq<u8>, value: Seq<u8>) -> Seq<u8> {
    record_body(tag, key, value) + be32(crc32_of(record_body(tag, key, value)))
}

pub open spec fn header_len(k: nat, v: nat) -> nat {
    1 + varint(k).len() + varint(v).len()
}

/// The length on disk of a record with key length `k` and value length `v`.
pub open spec fn rec_len(k: nat, v: nat) -> nat {
    header_len(k, v) + k + v + 4
}

/// The eleven bytes that a header is read from; past the end of `s` they are 0.
pub open spec fn window(s: Seq<u8>) -> Seq<u8> {
    Seq::new(HEADER_WINDOW as nat, |i: int| if i < s.len() { s[i] } else { 0u8 })
}

/// The bytes of `d` from `off` on; none where `off` lies outside `d`.
pub open spec fn tail(d: Seq<u8>, off: int) -> Seq<u8> {
    if 0 <= off <= d.len() {
        d.subrange(off, d.len() as int)
    } else {
        Seq::empty()
    }
}

/// The header at the front of `s`: type byte, key length and value length.
/// A type byte other than 1 or 2 marks the end of the records.
pub open spec fn header_spec(s: Seq<u8>) -> Result<(u8, nat, nat), KvError> {
    let w = window(s);
    if w[0] != 1 && w[0] != 2 {
        Err(KvError::ReadEOF)
    } else {
        match varint_dec(w.subrange(1, HEADER_WINDOW as int), 5) {
            None => Err(KvError::DecodeError),
            Some((k, kl)) => match varint_dec(w.subrange(1 + kl as int, HEADER_WINDOW as int), 5) {
                None => Err(KvError::DecodeError),
                Some((v, vl)) => if k == 0 {
                    Err(KvError::InvalidKey)
                } else {
                    Ok((w[0], k, v))
                },
            },
        }
    }
}

/// The record that starts at `off` in `d`, with its checksum checked against
/// the header, key and value that were read.
pub open spec fn record_at(d: Seq<u8>, off: int) -> Result<(u8, Seq<u8>, Seq<u8>), KvError> {
    match header_spec(tail(d, off)) {
        Err(e) => Err(e),
        Ok((t, k, v)) => {
            let h = header_len(k, v);
            if off + rec_len(k, v) > d.len() {
                Err(KvError::ReadEOF)
            } else {
                let key = d.subrange(off + h, off + h + k);
                let value = d.subrange(off + h + k, off + h + k + v);
                let stored = d.subrange(off + h + k + v, off + rec_len(k, v));
                if stored == be32(crc32_of(record_body(t, key, value))) {
                    Ok((t, key, value))
                } else {
                    Err(KvError::InvalidCrc)
                }
            }
        }
    }
}

pub proof fn lemma_cap_values()
    ensures
        cap(0) == 1,
        cap(1) == 128,
        cap(4) == 268435456,
        cap(5) == 34359738368,
        cap(10) == 1180591620717411303424,
{
    reveal_with_fuel(cap, 11);
}

pub proof fn lemma_cap_pos(f: nat)
    ensures
        cap(f) >= 1,
    decreases f,
{
    if f > 0 {
        lemma_cap_pos((f - 1) as nat);
    }
}

pub proof fn lemma_varint_len(n: nat, f: nat)
    requires
        n < cap(f),
        f >= 1,
    ensures
        1 <= varint(n).len() <= f,
    decreases n,
{
    if n >= 128 {
        assert(f >= 2) by {
            if f == 1 {
                lemma_cap_values();
            }
        }
        lemma_varint_len(n / 128, (f - 1) as nat);
    }
}

pub proof fn lemma_varint_dec_bounds(s: Seq<u8>, f: nat)
    ensures
        varint_dec(s, f) matches Some((v, l)) ==> v < cap(f) && 1 <= l <= f && l <= s.len(),
    decreases f,
{
    if f > 0 {
        lemma_cap_pos((f - 1) as nat);
    }
    if f > 0 && s.len() > 0 && s[0] >= 128 {
        lemma_varint_dec_bounds(s.drop_first(), (f - 1) as nat);
    }
}

/// A varint reads back as the value it was written from, whatever follows it.
pub proof fn lemma_varint_round_trip(n: nat, rest: Seq<u8>, f: nat)
    requires
        n < cap(f),
        f >= 1,
    ensures
        varint_dec(varint(n) + rest, f) == Some((n, varint(n).len())),
    decreases n,
{
    if n < 128 {
        assert((varint(n) + rest)[0] == n as u8);
    } else {
        assert(f >= 2) by {
            if f == 1 {
                lemma_cap_values();
            }
        }
        lemma_varint_round_trip(n / 128, rest, (f - 1) as nat);
        assert((varint(n) + rest).drop_first() =~= varint(n / 128) + rest);
    }
}

/// A varint read depends only on the bytes that it takes.
pub proof fn lemma_varint_dec_prefix(s: Seq<u8>, t: Seq<u8>, f: nat)
    requires
        varint_dec(s, f) is Some,
        varint_dec(s, f).unwrap().1 <= t.len(),
        forall|i: int| 0 <= i < varint_dec(s, f).unwrap().1 ==> s[i] == t[i],
    ensures
        varint_dec(t, f) == varint_dec(s, f),
    decreases f,
{
    lemma_varint_dec_bounds(s, f);
    if s[0] >= 128 {
        let l = varint_dec(s, f).unwrap().1;
        lemma_varint_dec_bounds(s.drop_first(), (f - 1) as nat);
        assert forall|i: int| 0 <= i < l - 1 implies s.drop_first()[i] == t.drop_first()[i] by {
            assert(s[i + 1] == t[i + 1]);
        }
        lemma_varint_dec_prefix(s.drop_first(), t.drop_first(), (f - 1) as nat);
    }
}

/// Appends the varint of `n`.
fn put_varint(buf: &mut Vec<u8>, n: u64)
    ensures
        final(buf)@ == old(buf)@ + varint(n as nat),
    decreases n,
{
    let ghost pre = buf@;
    if n < 128 {
        buf.push(n as u8);
        assert(buf@ =~= pre + varint(n as nat));
    } else {
        let b: u8 = (n % 128 + 128) as u8;
        buf.push(b);
        put_varint(buf, n / 128);
        assert(buf@ =~= pre + varint(n as nat));
    }
}

/// The number of bytes in the varint of `n`.
fn varint_len(n: u64) -> (r: u64)
    ensures
        r == varint(n as nat).len(),
        1 <= r <= 10,
    decreases n,
{
    proof {
        lemma_cap_values();
        lemma_varint_len(n as nat, 10);
    }
    if n < 128 {
        1
    } else {
        1 + varint_len(n / 128)
    }
}

/// Reads a varint of at most `fuel` bytes from `s`, starting at `start`.
fn get_varint(s: &[u8], start: usize, fuel: u64) -> (r: Option<(u64, u64)>)
    requires
        start <= s@.len(),
        fuel <= 5,
    ensures
        r == (match varint_dec(s@.subrange(start as int, s@.len() as int), fuel as nat) {
            Some((v, l)) => Some((v as u64, l as u64)),
            None => None,
        }),
        varint_dec(s@.subrange(start as int, s@.len() as int), fuel as nat) matches Some((v, l))
            ==> v < cap(fuel as nat) && 1 <= l <= fuel,
    decreases fuel,
{
    let ghost rest = s@.subrange(start as int, s@.len() as int);
    proof {
        lemma_varint_dec_bounds(rest, fuel as nat);
    }
    if fuel == 0 || start >= s.len() {
        return None;
    }
    let b = s[start];
    assert(rest[0] == b);
    if b < 128 {
        return Some((b as u64, 1));
    }
    assert(rest.drop_first() =~= s@.subrange(start + 1, s@.len() as int));
    match get_varint(s, start + 1, fuel - 1) {
        None => None,
        Some((v, l)) => {
            proof {
                lemma_cap_values();
                assert(cap((fuel - 1) as nat) <= cap(4)) by {
                    reveal_with_fuel(cap, 5);
                }
            }
            Some(((b - 128) as u64 + 128 * v, l + 1))
        },
    }
}

/// Relies on crc32fast::hash: the IEEE CRC-32 of the bytes, which depends on
/// the bytes alone.
#[verifier::external_body]
fn crc32(data: &[u8]) -> (r: u32)
    ensures
        r == crc32_of(data@),
{
    crc32fast::hash(data)
}

/// Appends the four bytes of `x`, most significant first.
fn put_u32_be(buf: &mut Vec<u8>, x: u32)
    ensures
        final(buf)@ == old(buf)@ + be32(x),
{
    let ghost pre = buf@;
    buf.push((x >> 24) as u8);
    buf.push((x >> 16) as u8);
    buf.push((x >> 8) as u8);
    buf.push(x as u8);
    assert(buf@ =~= pre + be32(x));
}

/// Appends the bytes of `s`.
fn put_slice(buf: &mut Vec<u8>, s: &[u8])
    ensures
        final(buf)@ == old(buf)@ + s@,
{
    let ghost pre = buf@;
    let mut i: usize = 0;
    while i < s.len()
        invariant
            i <= s@.len(),
            buf@ == pre + s@.subrange(0, i as int),
        decreases s@.len() - i,
    {
        buf.push(s[i]);
        i = i + 1;
        assert(buf@ =~= pre + s@.subrange(0, i as int));
    }
    assert(s@.subrange(0, s@.len() as int) =~= s@);
}

/// One logical mutation: a key set to a value, or a key removed.
pub struct Record {
    pub key: Vec<u8>,
    pub value: Vec<u8>,
    pub record_type: RecordType,
}

impl Record {
    /// Whether both lengths fit a record's length prefixes.
    pub open spec fn fits(&self) -> bool {
        self.key@.len() <= MAX_LEN && self.value@.len() <= MAX_LEN
    }

    pub open spec fn body_spec(&self) -> Seq<u8> {
        record_body(self.record_type.tag(), self.key@, self.value@)
    }

    pub fn new_set(key: Vec<u8>, value: Vec<u8>) -> (r: Record)
        ensures
            r.key == key,
            r.value == value,
            r.record_type == RecordType::Normal,
    {
        Record { key, value, record_type: RecordType::Normal }
    }

    pub fn new_remove(key: Vec<u8>) -> (r: Record)
        ensures
            r.key == key,
            r.value@ == Seq::<u8>::empty(),
            r.record_type == RecordType::Remove,
    {
        Record { key, value: Vec::new(), record_type: RecordType::Remove }
    }

    /// The bytes that the checksum covers.
    fn body(&self) -> (r: Vec<u8>)
        ensures
            r@ == self.body_spec(),
    {
        let mut buf: Vec<u8> = Vec::new();
        buf.push(self.record_type.to_u8());
        put_varint(&mut buf, self.key.len() as u64);
        put_varint(&mut buf, self.value.len() as u64);
        put_slice(&mut buf, self.key.as_slice());
        put_slice(&mut buf, self.value.as_slice());
        assert(buf@ =~= self.body_spec());
        buf
    }

    /// The record as it is written: body, then the checksum of the body.
    pub fn encode(&self) -> (r: Result<Vec<u8>, KvError>)
        ensures
            match r {
                Ok(buf) => self.fits() && buf@ == encode_record(
                    self.record_type.tag(),
                    self.key@,
                    self.value@,
                ),
                Err(e) => !self.fits() && e == KvError::EncodeError,
            },
    {
        if self.key.len() as u64 > MAX_LEN || self.value.len() as u64 > MAX_LEN {
            return Err(KvError::EncodeError);
        }
        let mut buf = self.body();
        let crc = crc32(buf.as_slice());
        put_u32_be(&mut buf, crc);
        Ok(buf)
    }

    /// The checksum that this record's bytes must carry.
    pub fn target_crc(&self) -> (r: u32)
        ensures
            r == crc32_of(self.body_spec()),
    {
        let buf = self.body();
        crc32(buf.as_slice())
    }

    /// The length of the record on disk.
    pub fn encoded_len(&self) -> (r: u64)
        requires
            self.fits(),
        ensures
            r == rec_len(self.key@.len(), self.value@.len()),
    {
        1 + varint_len(self.key.len() as u64) + varint_len(self.value.len() as u64)
            + self.key.len() as u64 + self.value.len() as u64 + 4
    }
}

/// A decoded header: the record's type and the lengths of its key and value.
pub struct ReadRecordHeaderBuf {
    pub record_type: RecordType,
    pub key_size: u64,
    pub value_size: u64,
}

impl ReadRecordHeaderBuf {
    pub open spec fn wf(&self) -> bool {
        self.key_size < cap(5) && self.value_size < cap(5)
    }

    /// The length of the header on disk, from the two lengths.
    pub fn get_header_len(&self) -> (r: u64)
        requires
            self.wf(),
        ensures
            r == header_len(self.key_size as nat, self.value_size as nat),
    {
        varint_len(self.key_size) + varint_len(self.value_size) + 1
    }

    /// The length of the whole record on disk, from the two lengths.
    pub fn encoded_len(&self) -> (r: u64)
        requires
            self.wf(),
        ensures
            r == rec_len(self.key_size as nat, self.value_size as nat),
    {
        proof {
            lemma_cap_values();
        }
        1 + varint_len(self.key_size) + varint_len(self.value_size) + self.key_size
            + self.value_size + 4
    }
}

/// The header of the record that starts at `offset` in `data`.
pub fn read_record_head_buf(data: &[u8], offset: u64) -> (r: Result<ReadRecordHeaderBuf, KvError>)
    ensures
        match header_spec(tail(data@, offset as int)) {
            Ok((t, k, v)) => r matches Ok(h) && h.wf() && h.record_type.tag() == t
                && h.key_size == k && h.value_size == v,
            Err(e) => r matches Err(e2) && e2 == e,
        },
        r is Ok ==> offset < data@.len(),
{
    let ghost s = tail(data@, offset as int);
    let mut w: Vec<u8> = Vec::new();
    let mut i: u64 = 0;
    while i < HEADER_WINDOW
        invariant
            i <= HEADER_WINDOW,
            w@.len() == i,
            s == tail(data@, offset as int),
            forall|j: int| 0 <= j < i ==> w@[j] == window(s)[j],
        decreases HEADER_WINDOW - i,
    {
        if offset < data.len() as u64 && i < data.len() as u64 - offset {
            let b = data[(offset + i) as usize];
            assert(s[i as int] == b);
            w.push(b);
        } else {
            assert(i >= s.len());
            w.push(0);
        }
        assert(w@[i as int] == window(s)[i as int]);
        i = i + 1;
    }
    assert(w@ =~= window(s));
    proof {
        lemma_cap_values();
    }
    let b = w[0];
    if b != 1 && b != 2 {
        return Err(KvError::ReadEOF);
    }
    let ws = w.as_slice();
    let (k, kl) = match get_varint(ws, 1, 5) {
        Some(x) => x,
        None => {
            return Err(KvError::DecodeError);
        },
    };
    let (v, vl) = match get_varint(ws, (1 + kl) as usize, 5) {
        Some(x) => x,
        None => {
            return Err(KvError::DecodeError);
        },
    };
    assert(window(s).subrange(1, HEADER_WINDOW as int) == ws@.subrange(1, ws@.len() as int));
    assert(window(s).subrange(1 + kl as int, HEADER_WINDOW as int) == ws@.subrange(
        (1 + kl) as int,
        ws@.len() as int,
    ));
    if k == 0 {
        return Err(KvError::InvalidKey);
    }
    Ok(ReadRecordHeaderBuf { record_type: RecordType::from(b), key_size: k, value_size: v })
}

/// Copies `len` bytes of `data` from `start` on.
fn copy_range(data: &[u8], start: usize, len: usize) -> (r: Vec<u8>)
    requires
        start + len <= data@.len(),
    ensures
        r@ == data@.subrange(start as int, start + len),
{
    let n = data.len();
    assert(start + len <= n);
    slice_to_vec(slice_subrange(data, start, start + len))
}

/// The key of the record at `offset`, read by its header alone: the checksum
/// is not checked.
pub fn read_key_from_header(data: &[u8], offset: u64, header: &ReadRecordHeaderBuf) -> (r: Option<Vec<u8>>)
    requires
        header.wf(),
    ensures
        match r {
            Some(key) => offset + rec_len(header.key_size as nat, header.value_size as nat)
                <= data@.len() && key@ == data@.subrange(
                offset + header_len(header.key_size as nat, header.value_size as nat),
                offset + header_len(header.key_size as nat, header.value_size as nat)
                    + header.key_size,
            ),
            None => offset + rec_len(header.key_size as nat, header.value_size as nat)
                > data@.len(),
        },
{
    let total = header.encoded_len();
    if offset > data.len() as u64 || total > data.len() as u64 - offset {
        return None;
    }
    let h = header.get_header_len();
    Some(copy_range(data, (offset + h) as usize, header.key_size as usize))
}

/// The record that starts at `offset` in `data`, with its checksum checked.
pub fn read_record(data: &[u8], offset: u64) -> (r: Result<Record, KvError>)
    ensures
        match record_at(data@, offset as int) {
            Ok((t, k, v)) => r matches Ok(rec) && rec.record_type.tag() == t && rec.key@ == k
                && rec.value@ == v,
            Err(e) => r matches Err(e2) && e2 == e,
        },
{
    let header = read_record_head_buf(data, offset)?;
    let total = header.encoded_len();
    if total > data.len() as u64 - offset {
        return Err(KvError::ReadEOF);
    }
    let h = header.get_header_len();
    let key = copy_range(data, (offset + h) as usize, header.key_size as usize);
    let value = copy_range(
        data,
        (offset + h + header.key_size) as usize,
        header.value_size as usize,
    );
    let record = Record { key, value, record_type: header.record_type };
    assert(header.record_type.tag() == 1 || header.record_type.tag() == 2);
    proof {
        lemma_cap_values();
    }
    let crc = record.target_crc();
    let stored = copy_range(data, (offset + total - 4) as usize, 4);
    let expect = be32_bytes(crc);
    if stored[0] == expect[0] && stored[1] == expect[1] && stored[2] == expect[2] && stored[3]
        == expect[3] {
        assert(stored@ =~= expect@);
        Ok(record)
    } else {
        Err(KvError::InvalidCrc)
    }
}

fn be32_bytes(x: u32) -> (r: Vec<u8>)
    ensures
        r@ == be32(x),
{
    let mut buf: Vec<u8> = Vec::new();
    put_u32_be(&mut buf, x);
    buf
}

/// The header of a record body reads back as its type and lengths, whatever
/// follows the body.
pub proof fn lemma_header_body(t: u8, k: Seq<u8>, v: Seq<u8>, rest: Seq<u8>)
    requires
        t == 1 || t == 2,
        k.len() > 0,
        k.len() <= MAX_LEN,
        v.len() <= MAX_LEN,
    ensures
        header_spec(record_body(t, k, v) + rest) == Ok::<(u8, nat, nat), KvError>(
            (t, k.len(), v.len()),
        ),
{
    lemma_cap_values();
    lemma_varint_len(k.len(), 5);
    lemma_varint_len(v.len(), 5);
    let vk = varint(k.len());
    let vv = varint(v.len());
    let kl = vk.len();
    let vl = vv.len();
    let e = record_body(t, k, v);
    let s = e + rest;
    let w = window(s);
    assert(e =~= seq![t] + vk + vv + k + v);
    assert(s.len() >= 1 + kl + vl);
    assert(w[0] == t);
    let w1 = w.subrange(1, HEADER_WINDOW as int);
    let x = vk + w.subrange(1 + kl as int, HEADER_WINDOW as int);
    lemma_varint_round_trip(k.len(), w.subrange(1 + kl as int, HEADER_WINDOW as int), 5);
    assert forall|i: int| 0 <= i < kl implies x[i] == w1[i] by {
        assert(w1[i] == s[1 + i]);
        assert(s[1 + i] == e[1 + i]);
        assert(e[1 + i] == vk[i]);
    }
    lemma_varint_dec_prefix(x, w1, 5);
    let w2 = w.subrange(1 + kl as int, HEADER_WINDOW as int);
    let y = vv + w.subrange(1 + kl + vl as int, HEADER_WINDOW as int);
    lemma_varint_round_trip(v.len(), w.subrange(1 + kl + vl as int, HEADER_WINDOW as int), 5);
    assert forall|i: int| 0 <= i < vl implies y[i] == w2[i] by {
        assert(w2[i] == s[1 + kl + i]);
        assert(s[1 + kl + i] == e[1 + kl + i]);
        assert(e[1 + kl + i] == vv[i]);
    }
    lemma_varint_dec_prefix(y, w2, 5);
}

/// The header of a written record reads back as its type and lengths,
/// whatever follows the record.
pub proof fn lemma_header_encoded(t: u8, k: Seq<u8>, v: Seq<u8>, rest: Seq<u8>)
    requires
        t == 1 || t == 2,
        k.len() > 0,
        k.len() <= MAX_LEN,
        v.len() <= MAX_LEN,
    ensures
        header_spec(encode_record(t, k, v) + rest) == Ok::<(u8, nat, nat), KvError>(
            (t, k.len(), v.len()),
        ),
        encode_record(t, k, v).len() == rec_len(k.len(), v.len()),
{
    let body = record_body(t, k, v);
    let crc = be32(crc32_of(body));
    lemma_header_body(t, k, v, crc + rest);
    assert(encode_record(t, k, v) + rest =~= body + (crc + rest));
}

/// A written record reads back, checksum and all, wherever it stands and
/// whatever follows it.
pub proof fn lemma_record_round_trip(pre: Seq<u8>, t: u8, k: Seq<u8>, v: Seq<u8>, rest: Seq<u8>)
    requires
        t == 1 || t == 2,
        k.len() > 0,
        k.len() <= MAX_LEN,
        v.len() <= MAX_LEN,
    ensures
        record_at(pre + encode_record(t, k, v) + rest, pre.len() as int) == Ok::<
            (u8, Seq<u8>, Seq<u8>),
            KvError,
        >((t, k, v)),
{
    let e = encode_record(t, k, v);
    let d = pre + e + rest;
    let off = pre.len() as int;
    assert(tail(d, off) =~= e + rest);
    lemma_header_encoded(t, k, v, rest);
    let h = header_len(k.len(), v.len());
    let body = record_body(t, k, v);
    assert(e =~= seq![t] + varint(k.len()) + varint(v.len()) + k + v + be32(crc32_of(body)));
    assert(d.subrange(off + h, off + h + k.len()) =~= k);
    assert(d.subrange(off + h + k.len(), off + h + k.len() + v.len()) =~= v);
    assert(d.subrange(off + h + k.len() + v.len(), off + rec_len(k.len(), v.len())) =~= be32(
        crc32_of(body),
    ));
}

/// A checksum mismatch is caught: where one of the four stored checksum
/// bytes of a written record is changed, reading the record fails with
/// `InvalidCrc`.
pub proof fn law_checksum_byte_flip(
    pre: Seq<u8>,
    t: u8,
    k: Seq<u8>,
    v: Seq<u8>,
    rest: Seq<u8>,
    j: int,
    b: u8,
)
    requires
        t == 1 || t == 2,
        k.len() > 0,
        k.len() <= MAX_LEN,
        v.len() <= MAX_LEN,
        encode_record(t, k, v).len() - 4 <= j < encode_record(t, k, v).len(),
        encode_record(t, k, v)[j] != b,
    ensures
        record_at(
            pre + encode_record(t, k, v).update(j, b) + rest,
            pre.len() as int,
        ) == Err::<(u8, Seq<u8>, Seq<u8>), KvError>(KvError::InvalidCrc),
{
    let body = record_body(t, k, v);
    let crc = be32(crc32_of(body));
    let e = encode_record(t, k, v);
    let e2 = e.update(j, b);
    let d = pre + e2 + rest;
    let off = pre.len() as int;
    lemma_header_encoded(t, k, v, rest);
    let crc2 = crc.update(j - body.len(), b);
    assert(e2 =~= body + crc2);
    assert(tail(d, off) =~= body + (crc2 + rest));
    lemma_header_body(t, k, v, crc2 + rest);
    let h = header_len(k.len(), v.len());
    assert(body =~= seq![t] + varint(k.len()) + varint(v.len()) + k + v);
    assert(d.subrange(off + h, off + h + k.len()) =~= k);
    assert(d.subrange(off + h + k.len(), off + h + k.len() + v.len()) =~= v);
    let stored = d.subrange(off + h + k.len() + v.len(), off + rec_len(k.len(), v.len()));
    assert(stored =~= crc2);
    assert(crc2[j - body.len()] != crc[j - body.len()]);
}

} // verus!
