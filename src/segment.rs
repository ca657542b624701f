use crate::entry::Entry;
use crate::error::StoreError;
use crate::key::Serializable;
use vstd::prelude::*;

verus! {

/// Where an appended entry stands: the segment, the byte offset of its
/// frame in that segment's file, and the frame's length.
#[derive(Debug, Clone, Copy, PartialEq, Eq, Structural)]
pub struct AppendEntryResponse {
    pub file_id: u64,
    pub offset: i64,
    pub entry_length: u32,
}

impl AppendEntryResponse {
    /// The byte range this location covers.
    pub open spec fn start(&self) -> int {
        self.offset as int
    }

    pub open spec fn end(&self) -> int {
        self.offset + self.entry_length
    }
}

/// The bookkeeping of one segment file: its id and how far it has been
/// written. Its ghost contents are the bytes the file holds.
pub struct Segment {
    pub file_id: u64,
    pub current_write_offset: u64,
    pub contents: Ghost<Seq<u8>>,
}

impl Segment {
    /// The bytes appended to this segment's file, in order.
    pub open spec fn contents(&self) -> Seq<u8> {
        self.contents@
    }

    /// The write offset is the length of the file and fits an `i64`.
    pub open spec fn wf(&self) -> bool {
        &&& self.current_write_offset == self.contents@.len()
        &&& self.current_write_offset <= i64::MAX
    }

    /// A new, empty segment.
    pub fn new_segment(file_id: u64) -> (r: Segment)
        ensures
            r.wf(),
            r.file_id == file_id,
            r.contents() == Seq::<u8>::empty(),
    {
        Segment { file_id, current_write_offset: 0, contents: Ghost(Seq::empty()) }
    }

    /// The segment whose file already holds `bytes`.
    pub fn holding(file_id: u64, bytes: &Vec<u8>) -> (r: Result<Segment, StoreError>)
        ensures
            r is Ok <==> bytes@.len() <= i64::MAX,
            r is Ok ==> r->Ok_0.wf() && r->Ok_0.file_id == file_id && r->Ok_0.contents()
                == bytes@,
            r is Err ==> r->Err_0 == StoreError::EntryTooLarge,
    {
        let len = bytes.len();
        if len as u64 > i64::MAX as u64 {
            return Err(StoreError::EntryTooLarge);
        }
        Ok(Segment { file_id, current_write_offset: len as u64, contents: Ghost(bytes@) })
    }

    /// Where the next append lands.
    pub fn write_offset(&self) -> (r: u64)
        requires
            self.wf(),
        ensures
            r == self.contents().len(),
    {
        self.current_write_offset
    }

    /// Records an append of `bytes` to this segment's file, of which the
    /// file took `written`. A short write fails with `ShortWrite` and an
    /// append past `i64::MAX` with `EntryTooLarge`; both leave the segment
    /// as it was. Otherwise the location of the frame is returned.
    pub fn append(&mut self, bytes: &Vec<u8>, written: usize) -> (r: Result<
        AppendEntryResponse,
        StoreError,
    >)
        requires
            old(self).wf(),
            bytes@.len() <= u32::MAX,
        ensures
            final(self).wf(),
            final(self).file_id == old(self).file_id,
            written < bytes@.len() ==> r == Err::<AppendEntryResponse, StoreError>(
                StoreError::ShortWrite,
            ),
            written >= bytes@.len() && old(self).contents().len() + bytes@.len() > i64::MAX
                ==> r == Err::<AppendEntryResponse, StoreError>(StoreError::EntryTooLarge),
            r is Err ==> *final(self) == *old(self),
            r is Err ==> written < bytes@.len() || old(self).contents().len() + bytes@.len()
                > i64::MAX,
            r is Ok ==> {
                &&& written >= bytes@.len()
                &&& final(self).contents() == old(self).contents() + bytes@
                &&& r->Ok_0 == (AppendEntryResponse {
                    file_id: old(self).file_id,
                    offset: old(self).contents().len() as i64,
                    entry_length: bytes@.len() as u32,
                })
            },
    {
        let len = bytes.len();
        if written < len {
            return Err(StoreError::ShortWrite);
        }
        if len as u64 > i64::MAX as u64 - self.current_write_offset {
            return Err(StoreError::EntryTooLarge);
        }
        let offset = self.current_write_offset;
        self.current_write_offset = offset + len as u64;
        self.contents = Ghost(self.contents@ + bytes@);
        Ok(AppendEntryResponse { file_id: self.file_id, offset: offset as i64, entry_length: len as u32 })
    }

    /// Decodes what a read of `size` bytes of this segment's file returned.
    /// A short read fails with `CorruptFrame`; otherwise the buffer is
    /// decoded from its start.
    pub fn read<T: Serializable>(&self, size: usize, bytes: Vec<u8>) -> (r: Result<
        Entry<T>,
        StoreError,
    >)
        ensures
            bytes@.len() != size ==> r == Err::<Entry<T>, StoreError>(StoreError::CorruptFrame),
            bytes@.len() == size ==> {
                &&& !crate::entry::frame_fits(bytes@, 0) ==> r == Err::<Entry<T>, StoreError>(
                    StoreError::CorruptFrame,
                )
                &&& crate::entry::frame_fits(bytes@, 0) ==> {
                    &&& r is Ok <==> T::spec_deserialize(crate::entry::frame_key(bytes@, 0)) is Some
                    &&& r is Ok ==> Entry::<T>::decodes_to(r->Ok_0, bytes@, 0)
                    &&& r is Err ==> r->Err_0 == StoreError::KeySerializationFailure
                }
            },
    {
        if bytes.len() != size {
            return Err(StoreError::CorruptFrame);
        }
        Entry::decode_at(&bytes, 0)
    }
}

/// The ASCII decimal digits of `n`, without leading zeros.
pub open spec fn decimal(n: nat) -> Seq<u8>
    decreases n,
{
    if n < 10 {
        seq![(n + 48) as u8]
    } else {
        decimal(n / 10).push(((n % 10) + 48) as u8)
    }
}

pub open spec fn is_digit(b: u8) -> bool {
    48 <= b <= 57
}

/// The number that a run of ASCII decimal digits spells.
pub open spec fn digits_value(s: Seq<u8>) -> nat
    decreases s.len(),
{
    if s.len() == 0 {
        0
    } else {
        digits_value(s.drop_last()) * 10 + (s.last() - 48) as nat
    }
}

/// The end of every segment file name: `_segment.data`.
pub open spec fn segment_suffix() -> Seq<u8> {
    seq![95u8, 115, 101, 103, 109, 101, 110, 116, 46, 100, 97, 116, 97]
}

/// The name of the file of segment `id`: its decimal digits, then
/// `_segment.data`.
pub open spec fn spec_segment_file_name(id: u64) -> Seq<u8> {
    decimal(id as nat) + segment_suffix()
}

/// The segment id that a file name stands for: a nonempty run of decimal
/// digits whose value fits a `u64`, then `_segment.data`.
pub open spec fn spec_parse_segment_file_name(name: Seq<u8>) -> Option<u64> {
    let k = segment_suffix().len();
    let d = name.subrange(0, name.len() - k);
    if name.len() > k && name.subrange(name.len() - k, name.len() as int) == segment_suffix()
        && (forall|i: int| 0 <= i < d.len() ==> is_digit(#[trigger] d[i])) && digits_value(d)
        <= u64::MAX {
        Some(digits_value(d) as u64)
    } else {
        None
    }
}

/// The suffix as bytes.
fn suffix_bytes() -> (r: Vec<u8>)
    ensures
        r@ == segment_suffix(),
{
    let r: Vec<u8> = vec![95u8, 115, 101, 103, 109, 101, 110, 116, 46, 100, 97, 116, 97];
    assert(r@ =~= segment_suffix());
    r
}

fn push_decimal(out: &mut Vec<u8>, n: u64)
    ensures
        final(out)@ == old(out)@ + decimal(n as nat),
    decreases n,
{
    if n >= 10 {
        push_decimal(out, n / 10);
    }
    out.push((n % 10) as u8 + 48);
    proof {
        if n >= 10 {
            assert(final(out)@ =~= old(out)@ + decimal(n as nat));
        } else {
            assert(final(out)@ =~= old(out)@ + decimal(n as nat));
        }
    }
}

/// The name, as ASCII bytes, of the file of segment `id`.
pub fn segment_file_name(id: u64) -> (r: Vec<u8>)
    ensures
        r@ == spec_segment_file_name(id),
{
    let mut r: Vec<u8> = Vec::new();
    push_decimal(&mut r, id);
    let suffix = suffix_bytes();
    let mut i: usize = 0;
    while i < suffix.len()
        invariant
            i <= suffix@.len(),
            suffix@ == segment_suffix(),
            r@ == decimal(id as nat) + suffix@.subrange(0, i as int),
        decreases suffix@.len() - i,
    {
        r.push(suffix[i]);
        i = i + 1;
        assert(r@ =~= decimal(id as nat) + suffix@.subrange(0, i as int));
    }
    assert(suffix@.subrange(0, i as int) =~= suffix@);
    r
}

/// The segment id that the file name `name` stands for, if it is the name
/// of a segment file.
pub fn parse_segment_file_name(name: &[u8]) -> (r: Option<u64>)
    ensures
        r == spec_parse_segment_file_name(name@),
{
    let suffix = suffix_bytes();
    let n = name.len();
    let k = suffix.len();
    if n <= k {
        return None;
    }
    let d = n - k;
    let mut i: usize = 0;
    while i < k
        invariant
            k == suffix@.len(),
            n == name@.len(),
            d == n - k,
            i <= k,
            suffix@ == segment_suffix(),
            forall|j: int| 0 <= j < i ==> name@[d + j] == suffix@[j],
        decreases k - i,
    {
        if name[d + i] != suffix[i] {
            proof {
                assert(name@.subrange(d as int, n as int)[i as int] != segment_suffix()[i as int]);
            }
            return None;
        }
        i = i + 1;
    }
    proof {
        assert(name@.subrange(d as int, n as int) =~= segment_suffix());
    }
    let ghost digits = name@.subrange(0, d as int);
    assert(digits == name@.subrange(0, name@.len() - segment_suffix().len()));
    let mut value: u64 = 0;
    let mut j: usize = 0;
    while j < d
        invariant
            d <= name@.len(),
            j <= d,
            digits == name@.subrange(0, d as int),
            digits == name@.subrange(0, name@.len() - segment_suffix().len()),
            forall|m: int| 0 <= m < j ==> is_digit(#[trigger] digits[m]),
            value == digits_value(digits.subrange(0, j as int)),
        decreases d - j,
    {
        let b = name[j];
        assert(digits[j as int] == b);
        if b < 48 || b > 57 {
            proof {
                assert(!is_digit(digits[j as int]));
                assert(!(forall|m: int| 0 <= m < digits.len() ==> is_digit(#[trigger] digits[m])));
                assert(spec_parse_segment_file_name(name@) is None);
            }
            return None;
        }
        let digit = (b - 48) as u64;
        proof {
            let p = digits.subrange(0, j + 1);
            assert(p.drop_last() =~= digits.subrange(0, j as int));
            assert(p.last() == b);
            assert(digits_value(p) == value * 10 + digit);
        }
        if value > (u64::MAX - digit) / 10 {
            proof {
                assert(value * 10 + digit > u64::MAX) by (nonlinear_arith)
                    requires
                        value > (u64::MAX - digit) / 10,
                        digit <= 9,
                ;
                if forall|m: int| 0 <= m < digits.len() ==> is_digit(#[trigger] digits[m]) {
                    lemma_digits_value_grows(digits, j as int + 1);
                    assert(digits_value(digits) > u64::MAX);
                }
                assert(spec_parse_segment_file_name(name@) is None);
            }
            return None;
        }
        proof {
            assert(value * 10 + digit <= u64::MAX) by (nonlinear_arith)
                requires
                    value <= (u64::MAX - digit) / 10,
                    digit <= 9,
            ;
        }
        value = value * 10 + digit;
        j = j + 1;
    }
    proof {
        assert(digits.subrange(0, j as int) =~= digits);
    }
    Some(value)
}

/// The value of a run of digits is at least that of any of its prefixes.
proof fn lemma_digits_value_grows(s: Seq<u8>, j: int)
    requires
        0 <= j <= s.len(),
        forall|m: int| 0 <= m < s.len() ==> is_digit(#[trigger] s[m]),
    ensures
        digits_value(s.subrange(0, j)) <= digits_value(s),
    decreases s.len() - j,
{
    if j < s.len() {
        lemma_digits_value_grows(s, j + 1);
        let p = s.subrange(0, j + 1);
        assert(p.drop_last() =~= s.subrange(0, j));
        assert(digits_value(p) == digits_value(s.subrange(0, j)) * 10 + (p.last() - 48) as nat);
    } else {
        assert(s.subrange(0, j) =~= s);
    }
}

/// Reading a segment file name gives back the id it was made from.
pub proof fn lemma_segment_file_name_round_trip(id: u64)
    ensures
        spec_parse_segment_file_name(spec_segment_file_name(id)) == Some(id),
{
    let name = spec_segment_file_name(id);
    let k = segment_suffix().len();
    assert(name.subrange(name.len() - k, name.len() as int) =~= segment_suffix());
    assert(name.subrange(0, name.len() - k) =~= decimal(id as nat));
    lemma_decimal_value(id as nat);
}

proof fn lemma_decimal_value(n: nat)
    ensures
        digits_value(decimal(n)) == n,
        forall|i: int| 0 <= i < decimal(n).len() ==> is_digit(#[trigger] decimal(n)[i]),
        decimal(n).len() > 0,
    decreases n,
{
    if n >= 10 {
        lemma_decimal_value(n / 10);
        let s = decimal(n);
        assert(s.drop_last() =~= decimal(n / 10));
        assert(s.last() == ((n % 10) + 48) as u8);
        assert((s.last() - 48) as nat == n % 10);
        assert(n == (n / 10) * 10 + n % 10);
        assert(digits_value(s) == digits_value(decimal(n / 10)) * 10 + n % 10);
        assert forall|i: int| 0 <= i < s.len() implies is_digit(#[trigger] s[i]) by {
            if i < s.len() - 1 {
                assert(s[i] == decimal(n / 10)[i]);
            }
        }
    } else {
        let s = decimal(n);
        assert(s.drop_last() =~= Seq::<u8>::empty());
        assert(s.last() == (n + 48) as u8);
        assert(digits_value(s) == digits_value(s.drop_last()) * 10 + (s.last() - 48) as nat);
    }
}

} // verus!
