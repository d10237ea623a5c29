//! The protobuf wire format: variable-length integers and the fields of a
//! message.
use vstd::prelude::*;
use vstd::utf8::{decode_utf8, valid_utf8};

verus! {

/// The number of bytes up to and including the first one below 128; zero
/// where every byte announces another.
pub open spec fn varint_size(b: Seq<u8>) -> int
    decreases b.len(),
{
    if b.len() == 0 {
        0
    } else if b[0] < 128 {
        1
    } else {
        let n = varint_size(b.skip(1));
        if n == 0 {
            0
        } else {
            n + 1
        }
    }
}

/// The value of the byte at position `k` of a variable-length integer is
/// multiplied by this.
pub open spec fn weight(k: nat) -> nat
    decreases k,
{
    if k == 0 {
        1
    } else {
        128 * weight((k - 1) as nat)
    }
}

/// The integer that the low seven bits of the bytes spell, the first byte
/// having the lowest bits.
pub open spec fn varint_sum(b: Seq<u8>) -> nat
    decreases b.len(),
{
    if b.len() == 0 {
        0
    } else {
        varint_sum(b.drop_last()) + (b.last() as nat % 128) * weight((b.len() - 1) as nat)
    }
}

/// The integer that `b` starts with, modulo 2 to the 64th; none where it does
/// not end within ten bytes.
pub open spec fn varint(b: Seq<u8>) -> Option<u64> {
    let n = varint_size(b);
    if 1 <= n <= 10 {
        Some((varint_sum(b.take(n)) % 0x1_0000_0000_0000_0000) as u64)
    } else {
        None
    }
}

/// The number of bytes that reading an integer from the start of `b` takes.
pub open spec fn varint_taken(b: Seq<u8>) -> int {
    let n = varint_size(b);
    if 1 <= n <= 10 {
        n
    } else if b.len() < 10 {
        b.len() as int
    } else {
        10
    }
}

proof fn lemma_weights(k: nat)
    requires
        k <= 9,
    ensures
        1 <= weight(k) <= 0x8000_0000_0000_0000,
{
    assert(weight(0) == 1);
    assert(weight(1) == 0x80);
    assert(weight(2) == 0x4000);
    assert(weight(3) == 0x20_0000);
    assert(weight(4) == 0x1000_0000);
    assert(weight(5) == 0x8_0000_0000);
    assert(weight(6) == 0x400_0000_0000);
    assert(weight(7) == 0x2_0000_0000_0000);
    assert(weight(8) == 0x100_0000_0000_0000);
}

proof fn lemma_size_nonnegative(b: Seq<u8>)
    ensures
        0 <= varint_size(b) <= b.len(),
    decreases b.len(),
{
    if b.len() > 0 {
        lemma_size_nonnegative(b.skip(1));
    }
}

proof fn lemma_size_skip(b: Seq<u8>, k: int)
    requires
        0 <= k <= b.len(),
        forall|j: int| 0 <= j < k ==> b[j] >= 128,
    ensures
        varint_size(b) == if varint_size(b.skip(k)) == 0 {
            0
        } else {
            k + varint_size(b.skip(k))
        },
    decreases k,
{
    if k == 0 {
        assert(b.skip(0) =~= b);
    } else {
        lemma_size_skip(b, k - 1);
        assert(b.skip(k - 1).skip(1) =~= b.skip(k));
        lemma_size_nonnegative(b.skip(k));
    }
}

pub proof fn lemma_varint_taken(b: Seq<u8>)
    ensures
        0 <= varint_taken(b) <= b.len(),
        b.len() > 0 ==> varint_taken(b) >= 1,
{
    lemma_size_nonnegative(b);
}

/// The bytes of `d` from `pos` on; none where that is behind the end.
pub open spec fn from_pos(d: Seq<u8>, pos: int) -> Seq<u8> {
    if pos <= d.len() {
        d.skip(pos)
    } else {
        Seq::empty()
    }
}

/// Reads the integer at `from`: its value, and the position behind what was
/// read. There is none behind the end of the buffer.
pub fn read_varint(data: &[u8], from: usize) -> (r: (Option<u64>, usize))
    ensures
        r.0 == varint(from_pos(data@, from as int)),
        r.1 == from + varint_taken(from_pos(data@, from as int)),
        from <= data@.len() ==> from <= r.1 <= data@.len(),
        from < data@.len() ==> from < r.1,
{
    let n: usize = data.len();
    if from > n {
        return (None, from);
    }
    let ghost b = data@.skip(from as int);
    let mut k: usize = 0;
    let mut sum: u128 = 0;
    let mut w: u128 = 1;
    while k < 10 && k < n - from
        invariant
            k <= 10,
            from + k <= n,
            n == data@.len(),
            b == data@.skip(from as int),
            forall|j: int| 0 <= j < k ==> b[j] >= 128,
            sum == varint_sum(b.take(k as int)),
            sum < w,
            w == weight(k as nat),
            k < 10 ==> w <= 0x8000_0000_0000_0000,
        decreases 10 - k,
    {
        let byte: u8 = data[from + k];
        let g: u128 = (byte % 128) as u128;
        proof {
            assert(g * w <= 127 * w) by (nonlinear_arith)
                requires
                    g <= 127,
            ;
            assert(b.take(k + 1).drop_last() =~= b.take(k as int));
        }
        sum = sum + g * w;
        if byte < 128 {
            proof {
                lemma_size_skip(b, k as int);
            }
            return (Some((sum % 0x1_0000_0000_0000_0000) as u64), from + k + 1);
        }
        w = w * 128;
        k += 1;
        proof {
            if k <= 9 {
                lemma_weights(k as nat);
            }
        }
    }
    proof {
        lemma_size_skip(b, k as int);
        lemma_size_nonnegative(b.skip(k as int));
    }
    (None, from + k)
}

/// A field of a message: its number and what it holds.
pub enum WireField {
    Varint(u32, u64),
    Bytes(u32, Seq<u8>),
    /// A fixed-width value, or something unknown.
    Other,
}

/// The smaller of two numbers.
pub open spec fn least(a: int, b: int) -> int {
    if a < b {
        a
    } else {
        b
    }
}

/// The field that `d` starts with and the number of bytes that it takes. A
/// value that is cut short is as long as there are bytes; where its length or
/// its integer cannot be read, that is zero.
pub open spec fn first_field(d: Seq<u8>) -> Option<(WireField, int)> {
    match varint(d) {
        None => None,
        Some(tag) => {
            let number = (tag / 8) as u32;
            let n = varint_taken(d);
            let rest = d.skip(n);
            if tag % 8 == 0 {
                let v = match varint(rest) {
                    Some(v) => v,
                    None => 0,
                };
                Some((WireField::Varint(number, v), n + varint_taken(rest)))
            } else if tag % 8 == 1 {
                Some((WireField::Other, n + least(8, rest.len() as int)))
            } else if tag % 8 == 2 {
                let len = match varint(rest) {
                    Some(v) => v,
                    None => 0,
                };
                let m = varint_taken(rest);
                let body = rest.skip(m);
                let size = least(len as int, body.len() as int);
                Some((WireField::Bytes(number, body.take(size)), n + m + size))
            } else if tag % 8 == 5 {
                Some((WireField::Other, n + least(4, rest.len() as int)))
            } else {
                Some((WireField::Other, d.len() as int))
            }
        },
    }
}

/// The fields of the message `d`, up to the first tag that cannot be read.
pub open spec fn wire_fields(d: Seq<u8>) -> Seq<WireField>
    decreases d.len(),
{
    match first_field(d) {
        Some((f, n)) => if 0 < n <= d.len() {
            seq![f] + wire_fields(d.skip(n))
        } else {
            Seq::empty()
        },
        None => Seq::empty(),
    }
}

/// A field as it lies in a buffer: where it holds bytes, between which
/// positions.
pub enum Field {
    Varint(u32, u64),
    Bytes(u32, usize, usize),
    Other,
}

/// What the field `f` of the buffer `d` is.
pub open spec fn field_view(f: Field, d: Seq<u8>) -> WireField {
    match f {
        Field::Varint(k, v) => WireField::Varint(k, v),
        Field::Bytes(k, i, j) => WireField::Bytes(k, d.subrange(i as int, j as int)),
        Field::Other => WireField::Other,
    }
}

/// The field at `pos`, and the position behind it; none where no tag can be
/// read there.
pub fn next_field(data: &[u8], pos: usize) -> (r: Option<(Field, usize)>)
    requires
        pos <= data@.len(),
    ensures
        match r {
            Some((f, end)) => {
                &&& pos < end <= data@.len()
                &&& first_field(data@.skip(pos as int)) == Some(
                    (field_view(f, data@), end - pos),
                )
                &&& f matches Field::Bytes(k, i, j) ==> i <= j <= data@.len() && j - i < data@.len()
            },
            None => first_field(data@.skip(pos as int)) is None,
        },
        match r {
            Some((f, end)) => wire_fields(data@.skip(pos as int)) == seq![field_view(f, data@)]
                + wire_fields(data@.skip(end as int)),
            None => wire_fields(data@.skip(pos as int)) == Seq::<WireField>::empty(),
        },
{
    let ghost d = data@.skip(pos as int);
    let n: usize = data.len();
    let (tag, after) = read_varint(data, pos);
    let tag: u64 = match tag {
        Some(t) => t,
        None => {
            return None;
        },
    };
    proof {
        lemma_varint_taken(d);
        lemma_size_nonnegative(d);
        assert(d.skip(after - pos) =~= data@.skip(after as int));
    }
    #[verifier::truncate]
    let number: u32 = (tag / 8) as u32;
    let wire: u64 = tag % 8;
    let mut end: usize = n;
    let mut f: Field = Field::Other;
    if wire == 0 {
        let (v, stop) = read_varint(data, after);
        let v: u64 = match v {
            Some(v) => v,
            None => 0,
        };
        f = Field::Varint(number, v);
        end = stop;
    } else if wire == 1 {
        if n - after >= 8 {
            end = after + 8;
        }
    } else if wire == 2 {
        let (len, start) = read_varint(data, after);
        let len: u64 = match len {
            Some(v) => v,
            None => 0,
        };
        let ghost rest = data@.skip(after as int);
        assert(rest.skip(start - after) =~= data@.skip(start as int));
        if len < (n - start) as u64 {
            end = start + len as usize;
        }
        f = Field::Bytes(number, start, end);
        assert(data@.skip(start as int).take(end - start) =~= data@.subrange(
            start as int,
            end as int,
        ));
    } else if wire == 5 {
        if n - after >= 4 {
            end = after + 4;
        }
    }
    assert(d.skip(end - pos) =~= data@.skip(end as int));
    Some((f, end))
}

/// `std::str::from_utf8` accepts exactly the valid UTF-8 byte sequences, and
/// gives the characters that they encode.
#[verifier::external_body]
pub(crate) fn utf8_text(bytes: &[u8]) -> (r: Option<String>)
    ensures
        match r {
            Some(s) => valid_utf8(bytes@) && s@ == decode_utf8(bytes@),
            None => !valid_utf8(bytes@),
        },
{
    std::str::from_utf8(bytes).ok().map(|s| s.to_string())
}

/// The bytes that spell the integer `v`: seven bits each, the lowest first,
/// and the highest bit set in all but the last.
pub open spec fn varint_bytes(v: nat) -> Seq<u8>
    decreases v,
{
    if v < 128 {
        seq![v as u8]
    } else {
        seq![(128 + v % 128) as u8] + varint_bytes(v / 128)
    }
}

proof fn lemma_sum_front(b: u8, s: Seq<u8>)
    ensures
        varint_sum(seq![b] + s) == b as nat % 128 + 128 * varint_sum(s),
    decreases s.len(),
{
    let all = seq![b] + s;
    if s.len() == 0 {
        assert(all.drop_last() =~= Seq::<u8>::empty());
        assert(varint_sum(all.drop_last()) == 0);
        assert((b as nat % 128) * weight(0) == b as nat % 128) by (nonlinear_arith)
            requires
                weight(0) == 1,
        ;
        assert(varint_sum(s) == 0);
    } else {
        let x = s.last() as nat % 128;
        let w = weight((s.len() - 1) as nat);
        lemma_sum_front(b, s.drop_last());
        assert(all.drop_last() =~= seq![b] + s.drop_last());
        assert(weight(s.len()) == 128 * w);
        assert(x * (128 * w) == 128 * (x * w)) by (nonlinear_arith);
    }
}

proof fn lemma_bytes_sum(v: nat)
    ensures
        varint_sum(varint_bytes(v)) == v,
    decreases v,
{
    if v < 128 {
        lemma_sum_front(v as u8, Seq::empty());
        assert(seq![v as u8] + Seq::<u8>::empty() =~= seq![v as u8]);
    } else {
        lemma_bytes_sum(v / 128);
        lemma_sum_front((128 + v % 128) as u8, varint_bytes(v / 128));
    }
}

proof fn lemma_bytes_size(v: nat, rest: Seq<u8>)
    ensures
        varint_size(varint_bytes(v) + rest) == varint_bytes(v).len(),
        varint_bytes(v).len() >= 1,
    decreases v,
{
    let all = varint_bytes(v) + rest;
    if v >= 128 {
        lemma_bytes_size(v / 128, rest);
        assert(all.skip(1) =~= varint_bytes(v / 128) + rest);
    }
}

proof fn lemma_bytes_len(v: nat, k: nat)
    requires
        1 <= k,
        v < weight(k),
    ensures
        varint_bytes(v).len() <= k,
    decreases k,
{
    if v >= 128 {
        assert(weight(1) == 128 * weight(0));
        lemma_bytes_len(v / 128, (k - 1) as nat);
    }
}

/// Reading gives back the integer that was written, and takes the bytes that
/// spell it and none of what follows.
pub proof fn law_written_integer_reads_back(v: u64, rest: Seq<u8>)
    ensures
        varint(varint_bytes(v as nat) + rest) == Some(v),
        varint_taken(varint_bytes(v as nat) + rest) == varint_bytes(v as nat).len(),
{
    let spelled = varint_bytes(v as nat);
    lemma_bytes_size(v as nat, rest);
    assert(weight(10) > u64::MAX) by {
        reveal_with_fuel(weight, 11);
    }
    lemma_bytes_len(v as nat, 10);
    assert((spelled + rest).take(spelled.len() as int) =~= spelled);
    lemma_bytes_sum(v as nat);
}

/// Reading from a buffer whose integers end early never goes past its end.
pub proof fn law_integers_are_bounded(b: Seq<u8>)
    ensures
        varint(b) is Some ==> 1 <= varint_taken(b) <= 10,
        varint_taken(b) <= b.len(),
{
    lemma_varint_taken(b);
}

/// A field that holds an integer, as it is written.
pub open spec fn integer_field(number: u32, v: u64) -> Seq<u8> {
    varint_bytes(8 * number as nat) + varint_bytes(v as nat)
}

/// A field that holds bytes, as it is written.
pub open spec fn bytes_field(number: u32, b: Seq<u8>) -> Seq<u8> {
    varint_bytes(8 * number as nat + 2) + varint_bytes(b.len()) + b
}

/// Reading a message gives back each field that was written, whatever follows
/// it.
pub proof fn law_written_fields_read_back(number: u32, v: u64, b: Seq<u8>, rest: Seq<u8>)
    requires
        b.len() <= u64::MAX,
    ensures
        wire_fields(integer_field(number, v) + rest) == seq![WireField::Varint(number, v)]
            + wire_fields(rest),
        wire_fields(bytes_field(number, b) + rest) == seq![WireField::Bytes(number, b)]
            + wire_fields(rest),
{
    let tag = (8 * number) as u64;
    let behind = varint_bytes(v as nat) + rest;
    let d = integer_field(number, v) + rest;
    assert(d =~= varint_bytes(tag as nat) + behind);
    law_written_integer_reads_back(tag, behind);
    law_written_integer_reads_back(v, rest);
    assert(tag / 8 == number && tag % 8 == 0);
    lemma_bytes_size(tag as nat, behind);
    let n = varint_taken(d);
    assert(d.skip(n) =~= behind);
    let m = varint_taken(behind);
    assert(d.skip(n + m) =~= rest);
    assert(first_field(d) == Some((WireField::Varint(number, v), n + m)));
    let tag = (8 * number + 2) as u64;
    let behind = varint_bytes(b.len()) + (b + rest);
    let d = bytes_field(number, b) + rest;
    assert(d =~= varint_bytes(tag as nat) + behind);
    law_written_integer_reads_back(tag, behind);
    law_written_integer_reads_back(b.len() as u64, b + rest);
    assert(tag / 8 == number && tag % 8 == 2);
    lemma_bytes_size(tag as nat, behind);
    let n = varint_taken(d);
    assert(d.skip(n) =~= behind);
    let m = varint_taken(behind);
    let body = behind.skip(m);
    assert(body =~= b + rest);
    assert(body.take(b.len() as int) =~= b);
    let size = b.len() as int;
    assert(d.skip(n + m + size) =~= rest);
    assert(first_field(d) == Some((WireField::Bytes(number, b), n + m + size)));
}

/// Values of a fixed width of eight or four bytes are stepped over, and what
/// follows them is read.
pub proof fn law_fixed_width_values_are_stepped_over(number: u32, b: Seq<u8>, rest: Seq<u8>)
    ensures
        b.len() == 8 ==> wire_fields(varint_bytes(8 * number as nat + 1) + b + rest) == seq![
            WireField::Other,
        ] + wire_fields(rest),
        b.len() == 4 ==> wire_fields(varint_bytes(8 * number as nat + 5) + b + rest) == seq![
            WireField::Other,
        ] + wire_fields(rest),
{
    let tag = (8 * number + 1) as u64;
    let d = varint_bytes(tag as nat) + b + rest;
    assert(d =~= varint_bytes(tag as nat) + (b + rest));
    law_written_integer_reads_back(tag, b + rest);
    lemma_bytes_size(tag as nat, b + rest);
    assert(tag % 8 == 1);
    let n = varint_taken(d);
    assert(d.skip(n) =~= b + rest);
    assert(d.skip(n + b.len()) =~= rest);
    let tag = (8 * number + 5) as u64;
    let d = varint_bytes(tag as nat) + b + rest;
    assert(d =~= varint_bytes(tag as nat) + (b + rest));
    law_written_integer_reads_back(tag, b + rest);
    lemma_bytes_size(tag as nat, b + rest);
    assert(tag % 8 == 5);
    let n = varint_taken(d);
    assert(d.skip(n) =~= b + rest);
    assert(d.skip(n + b.len()) =~= rest);
}

} // verus!
