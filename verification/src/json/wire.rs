//! The protobuf binary form, as Go's generated code reads and writes it
//! where protojson needs it (the bytes of an `Any`): varints, tags, and
//! skipping a field of any wire type.
use vstd::prelude::*;
use vstd::string::StringSliceAdditionalSpecFns;
use crate::bytes::copy_bytes;
use crate::json::{JsonError, JsonErrorKind};

verus! {

/// The largest field number.
pub const MAX_FIELD_NUMBER: u64 = 536870911;

/// `128` to the power `k`.
pub open spec fn p128(k: nat) -> nat
    decreases k,
{
    if k == 0 {
        1
    } else {
        128 * p128((k - 1) as nat)
    }
}

proof fn lemma_p128_values()
    ensures
        p128(0) == 1,
        p128(1) == 0x80,
        p128(2) == 0x4000,
        p128(3) == 0x200000,
        p128(4) == 0x10000000,
        p128(5) == 0x800000000,
        p128(6) == 0x40000000000,
        p128(7) == 0x2000000000000,
        p128(8) == 0x100000000000000,
        p128(9) == 0x8000000000000000,
{
    reveal_with_fuel(p128, 10);
}

/// The bytes `put_varint` writes for `v`: seven bits at a time, low bits
/// first, the high bit set on every byte but the last.
pub open spec fn varint_bytes(v: nat) -> Seq<u8>
    decreases v,
{
    if v < 128 {
        seq![v as u8]
    } else {
        seq![(v % 128 + 128) as u8] + varint_bytes(v / 128)
    }
}

/// `protowire.ConsumeVarint` from `at`, the `i`-th byte on: the value of the
/// bytes from there, and how many bytes from `at` the varint takes. A varint
/// has at most ten bytes, and the tenth holds one bit.
pub open spec fn read_varint(b: Seq<u8>, at: int, i: int) -> Option<(int, int)>
    decreases 10 - i,
{
    if i < 0 || i >= 10 || at + i < 0 || at + i >= b.len() {
        None
    } else {
        let c = b[at + i];
        if i == 9 && c > 1 {
            None
        } else if c < 128 {
            Some((c as int, i + 1))
        } else {
            match read_varint(b, at, i + 1) {
                None => None,
                Some((v, n)) => Some((c - 128 + 128 * v, n)),
            }
        }
    }
}

/// Appends the varint form of `v`.
pub fn put_varint(out: &mut Vec<u8>, v: u64)
    ensures
        final(out)@ == old(out)@ + varint_bytes(v as nat),
{
    let ghost o = out@;
    let mut w = v;
    while w >= 128
        invariant
            o + varint_bytes(v as nat) == out@ + varint_bytes(w as nat),
        decreases w,
    {
        let ghost before = out@;
        out.push((w % 128 + 128) as u8);
        assert(before + varint_bytes(w as nat) =~= out@ + varint_bytes((w / 128) as nat));
        w = w / 128;
    }
    out.push(w as u8);
    assert(o + varint_bytes(v as nat) =~= out@);
}

/// Appends a field's tag: its number and wire type.
pub fn put_tag(out: &mut Vec<u8>, number: u32, wire_type: u8)
    requires
        wire_type < 8,
    ensures
        final(out)@ == old(out)@ + varint_bytes((number * 8 + wire_type) as nat),
{
    put_varint(out, number as u64 * 8 + wire_type as u64);
}

/// The largest value a varint read from its `i`-th byte on may have.
pub open spec fn varint_cap(i: int) -> int {
    if i <= 0 {
        0x10000000000000000
    } else if i == 1 {
        0x200000000000000
    } else if i == 2 {
        0x4000000000000
    } else if i == 3 {
        0x80000000000
    } else if i == 4 {
        0x1000000000
    } else if i == 5 {
        0x20000000
    } else if i == 6 {
        0x400000
    } else if i == 7 {
        0x8000
    } else if i == 8 {
        0x100
    } else {
        2
    }
}

proof fn lemma_varint_roundtrip_from(b: Seq<u8>, at: int, i: int, v: nat)
    requires
        0 <= i <= 9,
        0 <= at,
        v < varint_cap(i),
        at + i + varint_bytes(v).len() <= b.len(),
        b.subrange(at + i, at + i + varint_bytes(v).len()) == varint_bytes(v),
    ensures
        read_varint(b, at, i) == Some((v as int, i + varint_bytes(v).len())),
    decreases v,
{
    assert(b[at + i] == varint_bytes(v)[0]);
    if v >= 128 {
        let rest = varint_bytes(v / 128);
        assert(varint_bytes(v) == seq![(v % 128 + 128) as u8] + rest);
        assert(b.subrange(at + i + 1, at + i + 1 + rest.len()) =~= rest) by {
            assert forall|k: int| 0 <= k < rest.len() implies b[at + i + 1 + k] == rest[k] by {
                assert(b.subrange(at + i, at + i + varint_bytes(v).len())[1 + k] == varint_bytes(v)[1 + k]);
            }
        }
        lemma_varint_roundtrip_from(b, at, i + 1, v / 128);
    }
}

/// What `put_varint` writes, `protowire.ConsumeVarint` reads back, whatever
/// follows it.
pub proof fn lemma_varint_roundtrip(v: u64, rest: Seq<u8>)
    ensures
        read_varint(varint_bytes(v as nat) + rest, 0, 0) == Some((v as int, varint_bytes(v as nat).len() as int)),
{
    let b = varint_bytes(v as nat) + rest;
    assert(b.subrange(0, varint_bytes(v as nat).len() as int) =~= varint_bytes(v as nat));
    lemma_varint_roundtrip_from(b, 0, 0, v as nat);
}

fn corrupt() -> (e: JsonError)
    ensures
        e.kind_v() == JsonErrorKind::Marshal,
        e.message_v() == "proto: cannot parse invalid wire-format data".spec_bytes(),
{
    JsonError::new(JsonErrorKind::Marshal, copy_bytes("proto: cannot parse invalid wire-format data".as_bytes()))
}

/// The error every malformed input gets.
pub open spec fn is_corrupt(e: JsonError) -> bool {
    e.kind_v() == JsonErrorKind::Marshal && e.message_v() == "proto: cannot parse invalid wire-format data".spec_bytes()
}

pub open spec fn shifted(a: int, p: int, r: Option<(int, int)>) -> Option<(int, int)> {
    match r {
        None => None,
        Some((w, n)) => Some((a + p * w, n)),
    }
}

/// `tag`: a field number in range and a wire type, and the position after.
pub open spec fn read_tag(b: Seq<u8>, at: int) -> Option<(int, int, int)> {
    match read_varint(b, at, 0) {
        None => None,
        Some((v, n)) => if 1 <= v / 8 <= MAX_FIELD_NUMBER {
            Some((v / 8, v % 8, at + n))
        } else {
            None
        },
    }
}

/// A length-prefixed field at `at`: where its bytes start and end.
pub open spec fn read_bytes(b: Seq<u8>, at: int) -> Option<(int, int)> {
    match read_varint(b, at, 0) {
        None => None,
        Some((len, n)) => if at + n + len > b.len() {
            None
        } else {
            Some((at + n, at + n + len))
        },
    }
}

/// `protowire.ConsumeFieldValue` for a field of `wire_type` at `at`: the
/// position after it. A group ends at the end-group tag of its own number,
/// at most `depth` groups deep.
pub open spec fn skip_field(b: Seq<u8>, at: int, number: int, wire_type: int, depth: int) -> Option<int>
    decreases depth, b.len() - at, 1int,
{
    if wire_type == 0 {
        match read_varint(b, at, 0) {
            None => None,
            Some((_, n)) => Some(at + n),
        }
    } else if wire_type == 1 {
        if at + 8 <= b.len() {
            Some(at + 8)
        } else {
            None
        }
    } else if wire_type == 2 {
        match read_bytes(b, at) {
            None => None,
            Some((_, e)) => Some(e),
        }
    } else if wire_type == 5 {
        if at + 4 <= b.len() {
            Some(at + 4)
        } else {
            None
        }
    } else if wire_type == 3 {
        if depth <= 0 || at < 0 || at > b.len() {
            None
        } else {
            skip_group(b, at, number, depth)
        }
    } else {
        None
    }
}

/// The fields of a group from `at`, through its end-group tag.
pub open spec fn skip_group(b: Seq<u8>, at: int, number: int, depth: int) -> Option<int>
    decreases depth, b.len() - at, 0int,
{
    if depth <= 0 || at < 0 || at > b.len() {
        None
    } else {
        match read_tag(b, at) {
            None => None,
            Some((n, w, a1)) => if w == 4 {
                if n != number {
                    None
                } else {
                    Some(a1)
                }
            } else {
                match skip_field(b, a1, n, w, depth - 1) {
                    None => None,
                    Some(a2) => if a2 <= at || a2 > b.len() {
                        None
                    } else {
                        skip_group(b, a2, number, depth)
                    },
                }
            },
        }
    }
}

/// A reader over protobuf bytes.
pub struct Reader<'a> {
    buf: &'a [u8],
    at: usize,
}

impl<'a> Reader<'a> {
    /// The bytes.
    pub closed spec fn bytes_v(&self) -> Seq<u8> {
        self.buf@
    }

    /// Where the reader stands.
    pub closed spec fn at_v(&self) -> int {
        self.at as int
    }

    /// The position is within the bytes.
    pub closed spec fn wf(&self) -> bool {
        self.at <= self.buf@.len()
    }

    /// A reader at the start of `buf`.
    pub fn new(buf: &'a [u8]) -> (r: Reader<'a>)
        ensures
            r.wf(),
            r.bytes_v() == buf@,
            r.at_v() == 0,
    {
        Reader { buf, at: 0 }
    }

    /// Where the reader stands.
    pub fn position(&self) -> (r: usize)
        ensures
            r == self.at_v(),
    {
        self.at
    }

    /// `protowire.ConsumeVarint`.
    pub fn varint(&mut self) -> (r: Result<u64, JsonError>)
        requires
            old(self).wf(),
        ensures
            r is Ok ==> final(self).at_v() > old(self).at_v(),
            final(self).wf(),
            final(self).bytes_v() == old(self).bytes_v(),
            match r {
                Ok(v) => read_varint(old(self).bytes_v(), old(self).at_v(), 0) == Some(
                    (v as int, final(self).at_v() - old(self).at_v()),
                ),
                Err(e) => is_corrupt(e) && read_varint(old(self).bytes_v(), old(self).at_v(), 0) is None
                    && final(self).at_v() == old(self).at_v(),
            },
    {
        let n = self.buf.len();
        let at = self.at;
        let ghost b = self.buf@;
        let mut v: u64 = 0;
        let mut pow: u64 = 1;
        let mut i: usize = 0;
        proof {
            lemma_p128_values();
        }
        loop
            invariant
                n == b.len(),
                b == self.buf@,
                b == old(self).bytes_v(),
                at == self.at,
                at == old(self).at_v(),
                at <= n,
                i <= 9,
                pow == p128(i as nat),
                p128(0) == 1 && p128(1) == 0x80 && p128(2) == 0x4000 && p128(3) == 0x200000 && p128(4) == 0x10000000
                    && p128(5) == 0x800000000 && p128(6) == 0x40000000000 && p128(7) == 0x2000000000000 && p128(8)
                    == 0x100000000000000 && p128(9) == 0x8000000000000000,
                v < pow,
                read_varint(b, at as int, 0) == shifted(v as int, pow as int, read_varint(b, at as int, i as int)),
            decreases 10 - i,
        {
            if i >= n - at {
                return Err(corrupt());
            }
            let c = self.buf[at + i];
            if i == 9 && c > 1 {
                return Err(corrupt());
            }
            if c < 128 {
                if c <= 1 {
                    assert(pow * c <= pow) by (nonlinear_arith)
                        requires
                            c <= 1,
                    ;
                } else {
                    assert(pow * c <= pow * 127) by (nonlinear_arith)
                        requires
                            c <= 127,
                    ;
                }
                let total = v + pow * c as u64;
                self.at = at + i + 1;
                return Ok(total);
            }
            let ghost w_next = read_varint(b, at as int, i + 1);
            assert(v + pow * (c - 128) < pow * 128) by (nonlinear_arith)
                requires
                    v < pow,
                    128 <= c < 256,
            ;
            proof {
                match w_next {
                    None => {},
                    Some((w, m)) => {
                        assert(v + pow * ((c - 128) + 128 * w) == (v + pow * (c - 128)) + (pow * 128) * w)
                            by (nonlinear_arith);
                    },
                }
            }
            assert(i < 9);
            v = v + pow * (c - 128) as u64;
            pow = pow * 128;
            i = i + 1;
        }
    }

    /// The next `count` bytes.
    pub fn fixed(&mut self, count: usize) -> (r: Result<&'a [u8], JsonError>)
        requires
            old(self).wf(),
        ensures
            final(self).wf(),
            final(self).bytes_v() == old(self).bytes_v(),
            match r {
                Ok(s) => old(self).at_v() + count <= old(self).bytes_v().len() && s@ == old(self).bytes_v().subrange(
                    old(self).at_v(),
                    old(self).at_v() + count,
                ) && final(self).at_v() == old(self).at_v() + count,
                Err(e) => is_corrupt(e) && old(self).at_v() + count > old(self).bytes_v().len() && final(self).at_v()
                    == old(self).at_v(),
            },
    {
        if count > self.buf.len() - self.at {
            return Err(corrupt());
        }
        let s = vstd::slice::slice_subrange(self.buf, self.at, self.at + count);
        self.at = self.at + count;
        Ok(s)
    }

    /// A length-prefixed field's bytes.
    pub fn bytes(&mut self) -> (r: Result<&'a [u8], JsonError>)
        requires
            old(self).wf(),
        ensures
            r is Ok ==> final(self).at_v() > old(self).at_v(),
            final(self).wf(),
            final(self).bytes_v() == old(self).bytes_v(),
            match r {
                Ok(s) => read_bytes(old(self).bytes_v(), old(self).at_v()) matches Some((start, end)) && s@
                    == old(self).bytes_v().subrange(start, end) && final(self).at_v() == end,
                Err(e) => is_corrupt(e) && read_bytes(old(self).bytes_v(), old(self).at_v()) is None,
            },
    {
        let len = self.varint()?;
        if len > (self.buf.len() - self.at) as u64 {
            return Err(corrupt());
        }
        let end = self.at + len as usize;
        let s = vstd::slice::slice_subrange(self.buf, self.at, end);
        self.at = end;
        Ok(s)
    }

    /// A field's tag: its number, which must be in range, and wire type.
    pub fn tag(&mut self) -> (r: Result<(u32, u8), JsonError>)
        requires
            old(self).wf(),
        ensures
            r is Ok ==> final(self).at_v() > old(self).at_v(),
            final(self).wf(),
            final(self).bytes_v() == old(self).bytes_v(),
            match r {
                Ok((number, wire_type)) => read_tag(old(self).bytes_v(), old(self).at_v()) == Some(
                    (number as int, wire_type as int, final(self).at_v()),
                ),
                Err(e) => is_corrupt(e) && read_tag(old(self).bytes_v(), old(self).at_v()) is None,
            },
    {
        let v = self.varint()?;
        let number = v / 8;
        if number < 1 || number > MAX_FIELD_NUMBER {
            return Err(corrupt());
        }
        Ok((number as u32, (v % 8) as u8))
    }

    /// `protowire.ConsumeFieldValue`: moves past a field of `wire_type`
    /// whose tag was just read.
    pub fn skip(&mut self, number: u32, wire_type: u8, depth: u32) -> (r: Result<(), JsonError>)
        requires
            old(self).wf(),
        ensures
            r is Ok ==> final(self).at_v() > old(self).at_v(),
            final(self).wf(),
            final(self).bytes_v() == old(self).bytes_v(),
            match r {
                Ok(()) => skip_field(old(self).bytes_v(), old(self).at_v(), number as int, wire_type as int, depth as int)
                    == Some(final(self).at_v()),
                Err(e) => is_corrupt(e) && skip_field(
                    old(self).bytes_v(),
                    old(self).at_v(),
                    number as int,
                    wire_type as int,
                    depth as int,
                ) is None,
            },
        decreases depth, old(self).bytes_v().len() - old(self).at_v(), 1int,
    {
        if wire_type == 0 {
            self.varint()?;
            return Ok(());
        }
        if wire_type == 1 {
            self.fixed(8)?;
            return Ok(());
        }
        if wire_type == 2 {
            self.bytes()?;
            return Ok(());
        }
        if wire_type == 5 {
            self.fixed(4)?;
            return Ok(());
        }
        if wire_type == 3 {
            if depth == 0 {
                return Err(corrupt());
            }
            return self.skip_group(number, depth);
        }
        Err(corrupt())
    }

    fn skip_group(&mut self, number: u32, depth: u32) -> (r: Result<(), JsonError>)
        requires
            old(self).wf(),
            depth > 0,
        ensures
            r is Ok ==> final(self).at_v() > old(self).at_v(),
            final(self).wf(),
            final(self).bytes_v() == old(self).bytes_v(),
            match r {
                Ok(()) => skip_group(old(self).bytes_v(), old(self).at_v(), number as int, depth as int) == Some(
                    final(self).at_v(),
                ),
                Err(e) => is_corrupt(e) && skip_group(old(self).bytes_v(), old(self).at_v(), number as int, depth as int)
                    is None,
            },
        decreases depth, old(self).bytes_v().len() - old(self).at_v(), 0int,
    {
        let ghost start = self.at_v();
        let ghost b = self.bytes_v();
        loop
            invariant
                self.wf(),
                self.bytes_v() == b,
                b == old(self).bytes_v(),
                start == old(self).at_v(),
                start <= self.at_v(),
                depth > 0,
                skip_group(b, start, number as int, depth as int) == skip_group(b, self.at_v(), number as int, depth as int),
            decreases b.len() - self.at_v(),
        {
            let ghost here = self.at_v();
            let (n, wt) = self.tag()?;
            if wt == 4 {
                if n != number {
                    return Err(corrupt());
                }
                return Ok(());
            }
            self.skip(n, wt, depth - 1)?;
            proof {
                assert(self.at_v() > here);
            }
        }
    }
}

} // verus!
