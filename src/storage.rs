//! Segments: a segment file is named by its generation, nine decimal digits
//! followed by `.storage`, and holds records back to back. A `Storage` is the
//! bookkeeping of one segment: its generation and where the next append lands.
use vstd::prelude::*;

use crate::error::KvError;

verus! {

/// The largest generation that a segment name can carry.
pub const MAX_GEN: u32 = 999999999;

pub open spec fn digit(d: int) -> char {
    if d == 0 {
        '0'
    } else if d == 1 {
        '1'
    } else if d == 2 {
        '2'
    } else if d == 3 {
        '3'
    } else if d == 4 {
        '4'
    } else if d == 5 {
        '5'
    } else if d == 6 {
        '6'
    } else if d == 7 {
        '7'
    } else if d == 8 {
        '8'
    } else {
        '9'
    }
}

pub open spec fn is_digit(c: char) -> bool {
    '0' <= c && c <= '9'
}

pub open spec fn digit_value(c: char) -> nat {
    (c as u32 - '0' as u32) as nat
}

/// The decimal digits of `n`, padded with zeros on the left to at least `w`.
pub open spec fn dec(n: nat, w: nat) -> Seq<char>
    decreases n + w,
{
    if n == 0 && w == 0 {
        Seq::empty()
    } else {
        dec(n / 10, if w > 0 { (w - 1) as nat } else { 0 }) + seq![digit((n % 10) as int)]
    }
}

/// The number that a string of decimal digits writes.
pub open spec fn digits_value(s: Seq<char>) -> nat
    decreases s.len(),
{
    if s.len() == 0 {
        0
    } else {
        digits_value(s.drop_last()) * 10 + digit_value(s.last())
    }
}

pub open spec fn suffix() -> Seq<char> {
    seq!['.', 's', 't', 'o', 'r', 'a', 'g', 'e']
}

/// The file name of the segment of generation `gen`.
pub open spec fn storage_name(gen: nat) -> Seq<char> {
    dec(gen, 9) + suffix()
}

/// The generation that a segment file name gives: exactly nine digits
/// followed by `.storage`.
pub open spec fn parse_storage_name(s: Seq<char>) -> Option<nat> {
    if s.len() == 17 && (forall|i: int| 0 <= i < 9 ==> is_digit(#[trigger] s[i])) && s.subrange(
        9,
        17,
    ) == suffix() {
        Some(digits_value(s.subrange(0, 9)))
    } else {
        None
    }
}

pub open spec fn pow10(n: nat) -> nat
    decreases n,
{
    if n == 0 {
        1
    } else {
        10 * pow10((n - 1) as nat)
    }
}

pub proof fn lemma_pow10_mono(i: nat, j: nat)
    requires
        i <= j,
    ensures
        pow10(i) <= pow10(j),
    decreases j,
{
    if i < j {
        lemma_pow10_mono(i, (j - 1) as nat);
    }
}

pub proof fn lemma_dec(n: nat, w: nat)
    requires
        n < pow10(w),
    ensures
        dec(n, w).len() == w,
        forall|i: int| 0 <= i < w ==> is_digit(#[trigger] dec(n, w)[i]),
        digits_value(dec(n, w)) == n,
    decreases n + w,
{
    if w > 0 {
        lemma_dec(n / 10, (w - 1) as nat);
        let d = dec(n, w);
        assert(d.drop_last() =~= dec(n / 10, (w - 1) as nat));
    } else {
        assert(n == 0);
    }
}

/// A segment name reads back as the generation it was made from.
pub proof fn lemma_name_round_trip(gen: nat)
    requires
        gen <= MAX_GEN,
    ensures
        parse_storage_name(storage_name(gen)) == Some(gen),
{
    assert(pow10(9) == 1000000000) by {
        reveal_with_fuel(pow10, 10);
    }
    lemma_dec(gen, 9);
    let s = storage_name(gen);
    assert(s.subrange(9, 17) =~= suffix());
    assert(s.subrange(0, 9) =~= dec(gen, 9));
    assert forall|i: int| 0 <= i < 9 implies is_digit(#[trigger] s[i]) by {
        assert(s[i] == dec(gen, 9)[i]);
    }
}

fn digit_str(d: u32) -> (r: &'static str)
    requires
        d < 10,
    ensures
        r@ == seq![digit(d as int)],
{
    if d == 0 {
        proof { reveal_strlit("0"); }
        "0"
    } else if d == 1 {
        proof { reveal_strlit("1"); }
        "1"
    } else if d == 2 {
        proof { reveal_strlit("2"); }
        "2"
    } else if d == 3 {
        proof { reveal_strlit("3"); }
        "3"
    } else if d == 4 {
        proof { reveal_strlit("4"); }
        "4"
    } else if d == 5 {
        proof { reveal_strlit("5"); }
        "5"
    } else if d == 6 {
        proof { reveal_strlit("6"); }
        "6"
    } else if d == 7 {
        proof { reveal_strlit("7"); }
        "7"
    } else if d == 8 {
        proof { reveal_strlit("8"); }
        "8"
    } else {
        proof { reveal_strlit("9"); }
        "9"
    }
}

fn push_dec(out: &mut String, n: u32, w: u32)
    ensures
        final(out)@ == old(out)@ + dec(n as nat, w as nat),
    decreases n + w,
{
    if n == 0 && w == 0 {
        assert(old(out)@ + dec(n as nat, w as nat) =~= old(out)@);
        return;
    }
    let w2: u32 = if w > 0 { w - 1 } else { 0 };
    push_dec(out, n / 10, w2);
    out.append(digit_str(n % 10));
    assert(out@ =~= old(out)@ + dec(n as nat, w as nat));
}

/// The file name of the segment of generation `gen`, zero-padded to nine digits.
pub fn storage_name_from_gen(gen: u32) -> (r: String)
    ensures
        r@ == storage_name(gen as nat),
{
    let mut out = String::new();
    push_dec(&mut out, gen, 9);
    proof { reveal_strlit(".storage"); }
    out.append(".storage");
    assert(out@ =~= storage_name(gen as nat));
    out
}

/// The generation named by a segment file name, if it is one.
pub fn parse_gen(name: &str) -> (r: Option<u32>)
    ensures
        match parse_storage_name(name@) {
            Some(g) => r == Some(g as u32) && g <= MAX_GEN,
            None => r is None,
        },
{
    let ghost s = name@;
    let n = name.unicode_len();
    if n != 17 {
        return None;
    }
    let mut v: u32 = 0;
    let mut i: usize = 0;
    while i < 9
        invariant
            s == name@,
            s.len() == 17,
            i <= 9,
            forall|j: int| 0 <= j < i ==> is_digit(#[trigger] s[j]),
            v as nat == digits_value(s.subrange(0, i as int)),
            v < pow10(i as nat),
        decreases 9 - i,
    {
        let c = name.get_char(i);
        if !('0' <= c && c <= '9') {
            return None;
        }
        proof {
            lemma_pow10_mono(i as nat, 8);
            assert(pow10(8) == 100000000) by {
                reveal_with_fuel(pow10, 9);
            }
            assert(s.subrange(0, i + 1).drop_last() =~= s.subrange(0, i as int));
        }
        v = v * 10 + (c as u32 - '0' as u32);
        i = i + 1;
    }
    let mut k: usize = 9;
    while k < 17
        invariant
            s == name@,
            s.len() == 17,
            9 <= k <= 17,
            forall|j: int| 9 <= j < k ==> #[trigger] s[j] == suffix()[j - 9],
        decreases 17 - k,
    {
        let c = name.get_char(k);
        let expect = if k == 9 {
            '.'
        } else if k == 10 {
            's'
        } else if k == 11 {
            't'
        } else if k == 12 {
            'o'
        } else if k == 13 {
            'r'
        } else if k == 14 {
            'a'
        } else if k == 15 {
            'g'
        } else {
            'e'
        };
        if c != expect {
            assert(s.subrange(9, 17)[k - 9] != suffix()[k - 9]);
            return None;
        }
        k = k + 1;
    }
    assert(s.subrange(9, 17) =~= suffix());
    proof {
        assert(pow10(9) == 1000000000) by {
            reveal_with_fuel(pow10, 10);
        }
    }
    Some(v)
}

/// The bookkeeping of one segment.
#[derive(Clone, Copy, Debug, PartialEq, Eq, Structural)]
pub struct Storage {
    pub gen: u32,
    /// Where the next append lands: the bytes of records written or replayed.
    pub offset: u64,
}

impl Storage {
    /// The segment that a file name stands for, with nothing read yet.
    pub fn new(file_name: &str) -> (r: Result<Storage, KvError>)
        ensures
            match parse_storage_name(file_name@) {
                Some(g) => r matches Ok(s) && s.gen == g && s.offset == 0,
                None => r == Err::<Storage, KvError>(KvError::InvalidPath),
            },
    {
        match parse_gen(file_name) {
            Some(gen) => Ok(Storage { gen, offset: 0 }),
            None => Err(KvError::InvalidPath),
        }
    }

    /// The first segment of an empty directory.
    pub fn init_zero() -> (r: Storage)
        ensures
            r.gen == 0,
            r.offset == 0,
    {
        Storage { gen: 0, offset: 0 }
    }

    /// Records that `written` more bytes were appended.
    pub fn write(&mut self, written: u64)
        requires
            old(self).offset + written <= u64::MAX,
        ensures
            final(self).gen == old(self).gen,
            final(self).offset == old(self).offset + written,
    {
        self.offset = self.offset + written;
    }

    pub fn get_offset(&self) -> (r: u64)
        ensures
            r == self.offset,
    {
        self.offset
    }

    pub fn set_offset(&mut self, offset: u64)
        ensures
            final(self).gen == old(self).gen,
            final(self).offset == offset,
    {
        self.offset = offset;
    }
}

/// Some name of `names` is that of the segment of generation `g`.
pub open spec fn names_gen(names: Seq<String>, g: nat) -> bool {
    exists|j: int| 0 <= j < names.len() && parse_storage_name(#[trigger] names[j]@) == Some(g)
}

/// Generations strictly ascending.
pub open spec fn gens_sorted(v: Seq<Storage>) -> bool {
    forall|i: int, j: int| 0 <= i < j < v.len() ==> #[trigger] v[i].gen < #[trigger] v[j].gen
}

/// The segments that the given file names stand for, ascending by
/// generation; names that are not segment names are skipped.
pub fn load_storages_sorted(names: &Vec<String>) -> (r: Vec<Storage>)
    ensures
        gens_sorted(r@),
        forall|i: int| 0 <= i < r@.len() ==> (#[trigger] r@[i]).offset == 0,
        forall|i: int| 0 <= i < r@.len() ==> names_gen(names@, (#[trigger] r@[i]).gen as nat),
        forall|j: int|
            0 <= j < names@.len() && parse_storage_name(#[trigger] names@[j]@) is Some
                ==> exists|i: int|
                0 <= i < r@.len() && parse_storage_name(names@[j]@) == Some(
                    (#[trigger] r@[i]).gen as nat,
                ),
{
    let mut out: Vec<Storage> = Vec::new();
    let mut n: usize = 0;
    while n < names.len()
        invariant
            n <= names@.len(),
            gens_sorted(out@),
            forall|i: int| 0 <= i < out@.len() ==> (#[trigger] out@[i]).offset == 0,
            forall|i: int| 0 <= i < out@.len() ==> names_gen(names@, (#[trigger] out@[i]).gen as nat),
            forall|j: int|
                0 <= j < n && parse_storage_name(#[trigger] names@[j]@) is Some ==> exists|i: int|
                    0 <= i < out@.len() && parse_storage_name(names@[j]@) == Some(
                        (#[trigger] out@[i]).gen as nat,
                    ),
        decreases names@.len() - n,
    {
        if let Ok(s) = Storage::new(names[n].as_str()) {
            let ghost old_out = out@;
            let mut p: usize = 0;
            while p < out.len() && out[p].gen <= s.gen
                invariant
                    out@ == old_out,
                    p <= out@.len(),
                    forall|i: int| 0 <= i < p ==> (#[trigger] out@[i]).gen <= s.gen,
                decreases out@.len() - p,
            {
                p = p + 1;
            }
            let ghost g = s.gen;
            if p > 0 && out[p - 1].gen == s.gen {
                assert(out@[p - 1].gen == g);
            } else {
            out.insert(p, s);
            proof {
                assert forall|i: int, j: int| 0 <= i < j < out@.len() implies #[trigger] out@[i].gen
                    <= #[trigger] out@[j].gen by {
                    let i2 = if i < p { i } else { i - 1 };
                    let j2 = if j < p { j } else { j - 1 };
                    if i != p && j != p {
                        assert(out@[i] == old_out[i2] && out@[j] == old_out[j2]);
                    } else if i == p {
                        assert(out@[j] == old_out[j2]);
                        assert(old_out[p as int].gen > g);
                        assert(old_out[p as int].gen <= old_out[j2].gen);
                    } else {
                        assert(out@[i] == old_out[i2]);
                        assert(i2 < p);
                        if i2 < p - 1 {
                            assert(old_out[i2].gen < old_out[p - 1].gen);
                        }
                    }
                }
                assert forall|i: int| 0 <= i < out@.len() implies names_gen(names@, (#[trigger] out@[i]).gen as nat) by {
                    if i < p {
                        assert(out@[i] == old_out[i]);
                    } else if i > p {
                        assert(out@[i] == old_out[i - 1]);
                    } else {
                        assert(parse_storage_name(names@[n as int]@) == Some(out@[i].gen as nat));
                    }
                }
                assert forall|j: int|
                    0 <= j < n + 1 && parse_storage_name(#[trigger] names@[j]@) is Some implies exists|i: int|
                    0 <= i < out@.len() && parse_storage_name(names@[j]@) == Some(
                        (#[trigger] out@[i]).gen as nat,
                    ) by {
                    if j == n {
                        assert(out@[p as int].gen == g);
                    } else {
                        let i = choose|i: int|
                            0 <= i < old_out.len() && parse_storage_name(names@[j]@) == Some(
                                (#[trigger] old_out[i]).gen as nat,
                            );
                        if i < p {
                            assert(out@[i] == old_out[i]);
                        } else {
                            assert(out@[i + 1] == old_out[i]);
                        }
                    }
                }
            }
            }
        }
        n = n + 1;
    }
    out
}

} // verus!
