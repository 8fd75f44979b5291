//! The protocol's variable-length integer encoding: seven value bits per
//! byte, least-significant group first, continuation flag in the high bit.
//! Decoding rejects any value that would need more than five bytes.

use vstd::prelude::*;

verus! {

/// 128 raised to the power `k`.
pub open spec fn pow128(k: nat) -> nat
    decreases k,
{
    if k == 0 {
        1
    } else {
        128 * pow128((k - 1) as nat)
    }
}

/// The value of a sequence of 7-bit groups, least significant first; the
/// continuation bit of each byte is ignored.
pub open spec fn group_val(s: Seq<u8>) -> nat
    decreases s.len(),
{
    if s.len() == 0 {
        0
    } else {
        (s[0] % 0x80) as nat + 128 * group_val(s.skip(1))
    }
}

/// The encoding of `v`: low group first, continuation bit on every byte but
/// the last.
pub open spec fn varint_bytes(v: u32) -> Seq<u8>
    decreases v,
{
    if v < 0x80 {
        seq![v as u8]
    } else {
        seq![(v % 0x80 + 0x80) as u8] + varint_bytes(v / 0x80)
    }
}

/// The bytes of `s` from `pos` up to `end` form one complete encoded value:
/// continuation bits on all but the last byte, at most five bytes.
pub open spec fn vterm_at(s: Seq<u8>, pos: int, end: int) -> bool {
    &&& 0 <= pos < end <= s.len()
    &&& end - pos <= 5
    &&& forall|i: int| pos <= i < end - 1 ==> s[i] >= 0x80
    &&& s[end - 1] < 0x80
}

/// A terminated encoding at a given position ends at exactly one place.
pub proof fn lemma_vterm_unique(s: Seq<u8>, pos: int, e1: int, e2: int)
    requires
        vterm_at(s, pos, e1),
        vterm_at(s, pos, e2),
    ensures
        e1 == e2,
{
    if e1 < e2 {
        assert(s[e1 - 1] >= 0x80);
        assert(false);
    }
    if e2 < e1 {
        assert(s[e2 - 1] >= 0x80);
        assert(false);
    }
}

proof fn lemma_pow128_len(v: u32, k: nat)
    requires
        1 <= k,
        (v as nat) < pow128(k),
    ensures
        varint_bytes(v).len() <= k,
    decreases v,
{
    if v >= 0x80 {
        assert(pow128(k) == 128 * pow128((k - 1) as nat));
        assert(((v / 0x80) as nat) < pow128((k - 1) as nat));
        assert(k >= 2) by {
            if k == 1 {
                assert(pow128(1nat) == 128);
            }
        }
        lemma_pow128_len(v / 0x80, (k - 1) as nat);
    }
}

/// Properties of the encoding: one to five bytes, continuation bits set on
/// every byte but the last, and the group value reads back as `v`.
pub proof fn lemma_varint_props(v: u32)
    ensures
        1 <= varint_bytes(v).len() <= 5,
        group_val(varint_bytes(v)) == v as nat,
        forall|i: int|
            0 <= i < varint_bytes(v).len() - 1 ==> #[trigger] varint_bytes(v)[i] >= 0x80,
        varint_bytes(v)[varint_bytes(v).len() - 1] < 0x80,
    decreases v,
{
    assert(pow128(5nat) > 0x1_0000_0000) by {
        reveal_with_fuel(pow128, 6);
    }
    lemma_pow128_len(v, 5nat);
    if v < 0x80 {
        let s = varint_bytes(v);
        assert(s == seq![v as u8]);
        assert(s.skip(1) =~= Seq::<u8>::empty());
        assert(group_val(s) == (v as u8 % 0x80) as nat + 128 * group_val(s.skip(1)));
    } else {
        lemma_varint_props(v / 0x80);
        let s = varint_bytes(v);
        let rest = varint_bytes(v / 0x80);
        assert(s == seq![(v % 0x80 + 0x80) as u8] + rest);
        assert(s.skip(1) =~= rest);
        assert(s[0] == (v % 0x80 + 0x80) as u8);
        assert((s[0] % 0x80) as nat == (v % 0x80) as nat);
        assert(group_val(s) == (v % 0x80) as nat + 128 * (v / 0x80) as nat);
        assert forall|i: int| 0 <= i < s.len() - 1 implies #[trigger] s[i] >= 0x80 by {
            if i >= 1 {
                assert(s[i] == rest[i - 1]);
            }
        }
        assert(s[s.len() - 1] == rest[rest.len() - 1]);
    }
}

/// The group value of any sequence of `k` bytes is below `pow128(k)`.
pub proof fn lemma_group_val_bound(s: Seq<u8>)
    ensures
        group_val(s) < pow128(s.len()),
    decreases s.len(),
{
    if s.len() > 0 {
        lemma_group_val_bound(s.skip(1));
        assert(group_val(s) == (s[0] % 0x80) as nat + 128 * group_val(s.skip(1)));
        assert(pow128(s.len()) == 128 * pow128((s.len() - 1) as nat));
        assert(group_val(s.skip(1)) <= pow128((s.len() - 1) as nat) - 1);
        assert(128 * group_val(s.skip(1)) <= 128 * (pow128((s.len() - 1) as nat) - 1))
            by (nonlinear_arith)
            requires
                group_val(s.skip(1)) <= pow128((s.len() - 1) as nat) - 1,
        ;
    }
}

/// Appending one byte adds its group at the next position.
pub proof fn lemma_group_val_snoc(s: Seq<u8>, b: u8)
    ensures
        group_val(s.push(b)) == group_val(s) + (b % 0x80) as nat * pow128(s.len()),
    decreases s.len(),
{
    if s.len() == 0 {
        assert(s.push(b) =~= seq![b]);
        assert(s.push(b).skip(1) =~= Seq::<u8>::empty());
        assert(group_val(s.push(b).skip(1)) == 0);
        assert(group_val(s.push(b)) == (b % 0x80) as nat + 128 * group_val(s.push(b).skip(1)));
        assert(pow128(0nat) == 1);
    } else {
        lemma_group_val_snoc(s.skip(1), b);
        assert(s.push(b).skip(1) =~= s.skip(1).push(b));
        assert(group_val(s.push(b)) == (s[0] % 0x80) as nat + 128 * group_val(s.skip(1).push(b)));
        assert(group_val(s) == (s[0] % 0x80) as nat + 128 * group_val(s.skip(1)));
        assert(pow128(s.len()) == 128 * pow128((s.len() - 1) as nat));
        let c = (b % 0x80) as nat;
        let p = pow128(s.skip(1).len());
        assert(group_val(s.skip(1).push(b)) == group_val(s.skip(1)) + c * p);
        assert(128 * (group_val(s.skip(1)) + c * p) == 128 * group_val(s.skip(1)) + 128 * (c * p))
            by (nonlinear_arith);
        assert(c * (128 * p) == 128 * (c * p)) by (nonlinear_arith);
    }
}

/// Appends the encoding of `v` to `buf`.
pub fn write_varint_u32(buf: &mut Vec<u8>, v: u32)
    ensures
        final(buf)@ == old(buf)@ + varint_bytes(v),
{
    let mut x: u32 = v;
    loop
        invariant_except_break
            old(buf)@ + varint_bytes(v) =~= buf@ + varint_bytes(x),
        ensures
            final(buf)@ =~= old(buf)@ + varint_bytes(v),
        decreases x,
    {
        if x < 0x80 {
            proof {
                assert(varint_bytes(x) =~= seq![x as u8]);
                assert(buf@.push(x as u8) =~= buf@ + seq![x as u8]);
            }
            buf.push(x as u8);
            break;
        }
        let b: u8 = (x % 0x80 + 0x80) as u8;
        proof {
            assert(varint_bytes(x) =~= seq![b] + varint_bytes(x / 0x80));
            assert(buf@.push(b) + varint_bytes(x / 0x80) =~= buf@ + varint_bytes(x));
        }
        buf.push(b);
        x = x / 0x80;
    }
}

/// The unsigned 32-bit value with the same bit pattern as `v`.
pub open spec fn u32_of_i32(v: i32) -> nat {
    if v >= 0 {
        v as nat
    } else {
        (v + 0x1_0000_0000) as nat
    }
}

/// The encoding of a signed value: its two's-complement bit pattern encoded
/// as an unsigned value.
pub open spec fn varint_i32(v: i32) -> Seq<u8> {
    varint_bytes(u32_of_i32(v) as u32)
}

/// Appends the encoding of a signed value to `buf`.
pub fn write_varint(buf: &mut Vec<u8>, v: i32)
    ensures
        final(buf)@ == old(buf)@ + varint_i32(v),
{
    let u: u32 = if v >= 0 {
        v as u32
    } else {
        let w: u32 = ((v as i64) + 0x1_0000_0000i64) as u32;
        w
    };
    write_varint_u32(buf, u);
}

/// Incremental decoder: accumulates continuation bytes one at a time, so a
/// caller that reads from a stream can feed exactly as many bytes as the
/// encoding holds.
pub struct VarIntAccum {
    acc: u64,
    count: u8,
    fed: Ghost<Seq<u8>>,
}

/// One step of incremental decoding.
pub enum VarStep {
    /// The byte just fed completed a value.
    Done(u32),
    /// More bytes are needed.
    More,
    /// Five continuation bytes were seen: the encoding is malformed.
    TooLong,
}

impl VarIntAccum {
    /// The continuation bytes accepted so far.
    pub closed spec fn bytes(self) -> Seq<u8> {
        self.fed@
    }

    pub closed spec fn wf(self) -> bool {
        &&& self.count as nat == self.fed@.len()
        &&& self.fed@.len() <= 4
        &&& (forall|i: int| 0 <= i < self.fed@.len() ==> #[trigger] self.fed@[i] >= 0x80)
        &&& self.acc as nat == group_val(self.fed@)
    }

    pub fn new() -> (r: Self)
        ensures
            r.wf(),
            r.bytes().len() == 0,
    {
        VarIntAccum { acc: 0, count: 0, fed: Ghost(Seq::empty()) }
    }

    /// Feeds one byte. A byte without the continuation bit completes the
    /// value (modulo 2^32, as the protocol truncates oversized group sums);
    /// a fifth continuation byte is malformed.
    pub fn feed(&mut self, b: u8) -> (st: VarStep)
        requires
            old(self).wf(),
        ensures
            final(self).wf(),
            match st {
                VarStep::Done(v) => {
                    &&& b < 0x80
                    &&& v as nat == group_val(old(self).bytes().push(b)) % 0x1_0000_0000
                    &&& final(self).bytes().len() == 0
                },
                VarStep::More => {
                    &&& b >= 0x80
                    &&& old(self).bytes().len() < 4
                    &&& final(self).bytes() == old(self).bytes().push(b)
                },
                VarStep::TooLong => {
                    &&& b >= 0x80
                    &&& old(self).bytes().len() == 4
                    &&& *final(self) == *old(self)
                },
            },
    {
        let pow: u64 = match self.count {
            0 => 1,
            1 => 128,
            2 => 16384,
            3 => 2097152,
            _ => 268435456,
        };
        proof {
            assert(pow128(0nat) == 1 && pow128(1nat) == 128 && pow128(2nat) == 16384 && pow128(
                3nat,
            ) == 2097152 && pow128(4nat) == 268435456) by {
                reveal_with_fuel(pow128, 6);
            }
            assert(pow as nat == pow128(self.fed@.len()));
            lemma_group_val_bound(self.fed@);
        }
        if b < 0x80 {
            proof {
                lemma_group_val_snoc(self.fed@, b);
                assert((b as u64 as nat) * (pow as nat) <= 127 * 268435456) by (nonlinear_arith)
                    requires
                        b < 128,
                        pow <= 268435456,
                ;
            }
            let total: u64 = self.acc + (b as u64) * pow;
            let v: u32 = (total % 0x1_0000_0000u64) as u32;
            self.acc = 0;
            self.count = 0;
            proof {
                self.fed@ = Seq::empty();
            }
            VarStep::Done(v)
        } else if self.count >= 4 {
            VarStep::TooLong
        } else {
            proof {
                lemma_group_val_snoc(self.fed@, b);
                assert(((b - 0x80) as u64 as nat) * (pow as nat) <= 127 * 268435456)
                    by (nonlinear_arith)
                    requires
                        b >= 0x80,
                        pow <= 268435456,
                ;
            }
            self.acc = self.acc + ((b - 0x80) as u64) * pow;
            self.count = self.count + 1;
            proof {
                self.fed@ = self.fed@.push(b);
            }
            VarStep::More
        }
    }
}

/// Decodes one value from `s` starting at `pos`. Returns the value and the
/// position just past its last byte, or `None` when no complete encoding of
/// at most five bytes starts there.
pub fn read_varint_at(s: &Vec<u8>, pos: usize) -> (r: Option<(u32, usize)>)
    requires
        pos <= s@.len(),
    ensures
        match r {
            Some(p) => {
                &&& vterm_at(s@, pos as int, p.1 as int)
                &&& p.0 as nat == group_val(s@.subrange(pos as int, p.1 as int)) % 0x1_0000_0000
            },
            None => forall|end: int| !vterm_at(s@, pos as int, end),
        },
{
    let mut acc = VarIntAccum::new();
    let mut i: usize = pos;
    proof {
        assert(acc.bytes() =~= s@.subrange(pos as int, pos as int));
    }
    while i < s.len()
        invariant
            pos <= i <= s@.len(),
            acc.wf(),
            acc.bytes() == s@.subrange(pos as int, i as int),
            i - pos == acc.bytes().len(),
            forall|k: int| pos <= k < i ==> s@[k] >= 0x80,
        decreases s@.len() - i,
    {
        let b = s[i];
        let ghost fed0 = acc.bytes();
        let st = acc.feed(b);
        match st {
            VarStep::Done(v) => {
                proof {
                    assert(fed0.push(b) =~= s@.subrange(pos as int, i as int + 1));
                    assert(vterm_at(s@, pos as int, i as int + 1));
                }
                return Some((v, i + 1));
            },
            VarStep::More => {
                proof {
                    assert(fed0.push(b) =~= s@.subrange(pos as int, i as int + 1));
                }
                i = i + 1;
            },
            VarStep::TooLong => {
                proof {
                    assert forall|end: int| !vterm_at(s@, pos as int, end) by {
                        if vterm_at(s@, pos as int, end) {
                            assert(s@[end - 1] < 0x80);
                            assert(pos <= end - 1 < i + 1);
                            if end - 1 < i {
                                assert(s@[end - 1] >= 0x80);
                            }
                        }
                    }
                }
                return None;
            },
        }
    }
    proof {
        assert forall|end: int| !vterm_at(s@, pos as int, end) by {
            if vterm_at(s@, pos as int, end) {
                assert(s@[end - 1] < 0x80);
                assert(pos <= end - 1 < s@.len());
                assert(s@[end - 1] >= 0x80);
            }
        }
    }
    None
}

/// Wherever the bytes of `varint_bytes(v)` stand in a buffer, decoding from
/// that position gives back `v` and stops just past them.
pub proof fn lemma_varint_round_trip(v: u32, s: Seq<u8>, pos: int)
    requires
        0 <= pos,
        pos + varint_bytes(v).len() <= s.len(),
        s.subrange(pos, pos + varint_bytes(v).len()) == varint_bytes(v),
    ensures
        vterm_at(s, pos, pos + varint_bytes(v).len()),
        group_val(s.subrange(pos, pos + varint_bytes(v).len())) % 0x1_0000_0000 == v as nat,
{
    lemma_varint_props(v);
    let n = varint_bytes(v).len() as int;
    assert forall|i: int| pos <= i < pos + n - 1 implies s[i] >= 0x80 by {
        assert(s[i] == varint_bytes(v)[i - pos]);
    }
    assert(s[pos + n - 1] == varint_bytes(v)[n - 1]);
    assert(group_val(varint_bytes(v)) == v as nat);
    assert((v as nat) < 0x1_0000_0000);
}

} // verus!
