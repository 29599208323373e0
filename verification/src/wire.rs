//! The wire format: little-endian integers, commands and messages, with a decoder
//! that refuses whatever is cut short or carries an unknown tag.

use vstd::prelude::*;
use crate::cmd::{cmds_view, Cmd, CmdV};
use crate::kind::{kind_byte_roundtrip, kind_from_u8, kind_to_u8};
use crate::num::Num;

verus! {

/// Most commands a step may carry.
pub const STEP_MAX_CMDS: usize = 255;

/// Most ids one command of a step may carry: far beyond any selection, yet small
/// enough that even the largest command fits in a frame.
pub const STEP_MAX_IDS: usize = 4096;

/// Most bytes an encoded step may have: half the frame limit.
pub const STEP_MAX_BYTES: usize = 32_768;

/// Hard ceiling on the payload of one frame.
pub const MAX_FRAME: usize = 65_536;

/// The free-for-all team byte: every faction its own alliance.
pub const TEAMS_FFA: u8 = 0b11_10_01_00;

// ---- integers ----------------------------------------------------------------

/// The `n` little-endian bytes of `v`.
pub open spec fn le(v: int, n: nat) -> Seq<u8>
    decreases n,
{
    if n == 0 {
        Seq::empty()
    } else {
        seq![(v % 256) as u8] + le(v / 256, (n - 1) as nat)
    }
}

/// The number that little-endian bytes stand for.
pub open spec fn unle(s: Seq<u8>) -> int
    decreases s.len(),
{
    if s.len() == 0 {
        0
    } else {
        s[0] + 256 * unle(s.drop_first())
    }
}

/// 256 to the power of `n`.
pub open spec fn pow256(n: nat) -> int
    decreases n,
{
    if n == 0 {
        1
    } else {
        256 * pow256((n - 1) as nat)
    }
}

pub proof fn lemma_le_len(v: int, n: nat)
    ensures
        le(v, n).len() == n,
    decreases n,
{
    if n > 0 {
        lemma_le_len(v / 256, (n - 1) as nat);
    }
}

/// A number that fits survives its bytes.
pub proof fn le_roundtrip(v: int, n: nat)
    requires
        0 <= v < pow256(n),
    ensures
        unle(le(v, n)) == v,
        le(v, n).len() == n,
    decreases n,
{
    lemma_le_len(v, n);
    if n > 0 {
        assert(0 <= v / 256 < pow256((n - 1) as nat));
        le_roundtrip(v / 256, (n - 1) as nat);
        assert(le(v, n).drop_first() =~= le(v / 256, (n - 1) as nat));
    }
}

/// Bytes survive the number they stand for.
pub proof fn unle_roundtrip(s: Seq<u8>)
    ensures
        0 <= unle(s) < pow256(s.len()),
        le(unle(s), s.len()) == s,
    decreases s.len(),
{
    if s.len() > 0 {
        unle_roundtrip(s.drop_first());
        let rest = unle(s.drop_first());
        assert(unle(s) % 256 == s[0]);
        assert(unle(s) / 256 == rest);
        assert(le(unle(s), s.len()) =~= seq![s[0]] + s.drop_first());
        assert(seq![s[0]] + s.drop_first() =~= s);
    }
}

proof fn lemma_pow256()
    ensures
        pow256(0) == 1,
        pow256(1) == 0x100,
        pow256(2) == 0x1_0000,
        pow256(4) == 0x1_0000_0000,
        pow256(8) == 0x1_0000_0000_0000_0000,
{
    reveal_with_fuel(pow256, 9);
}

/// A growing message.
pub struct Buf(pub Vec<u8>);

impl Default for Buf {
    fn default() -> (r: Buf)
        ensures
            r.0@.len() == 0,
    {
        Buf(Vec::new())
    }
}

impl Buf {
    fn put(&mut self, v: u64, n: usize)
        ensures
            final(self).0@ == old(self).0@ + le(v as int, n as nat),
    {
        let mut rest: u64 = v;
        let mut i: usize = 0;
        proof {
            assert(self.0@ + le(rest as int, n as nat) =~= old(self).0@ + le(v as int, n as nat));
        }
        while i < n
            invariant
                i <= n,
                self.0@ + le(rest as int, (n - i) as nat) == old(self).0@ + le(v as int, n as nat),
            decreases n - i,
        {
            let ghost before = self.0@;
            self.0.push((rest % 256) as u8);
            proof {
                assert(before + le(rest as int, (n - i) as nat) =~= self.0@ + le(
                    rest as int / 256,
                    (n - i - 1) as nat,
                ));
            }
            rest = rest / 256;
            i = i + 1;
        }
        proof {
            assert(self.0@ + le(rest as int, 0) =~= self.0@);
        }
    }

    pub fn u8(&mut self, v: u8)
        ensures
            final(self).0@ == old(self).0@ + seq![v],
    {
        self.0.push(v);
        assert(self.0@ =~= old(self).0@ + seq![v]);
    }

    pub fn u16(&mut self, v: u16)
        ensures
            final(self).0@ == old(self).0@ + le(v as int, 2),
    {
        self.put(v as u64, 2);
    }

    pub fn u32(&mut self, v: u32)
        ensures
            final(self).0@ == old(self).0@ + le(v as int, 4),
    {
        self.put(v as u64, 4);
    }

    pub fn u64(&mut self, v: u64)
        ensures
            final(self).0@ == old(self).0@ + le(v as int, 8),
    {
        self.put(v, 8);
    }

    /// A single-precision number goes over the wire as its bit pattern.
    pub fn num(&mut self, v: Num)
        ensures
            final(self).0@ == old(self).0@ + le(v.bits as int, 4),
    {
        self.u32(v.bits);
    }
}

/// The number in `n` bytes from position `p`, if they are all there.
pub open spec fn rd(s: Seq<u8>, p: int, n: int) -> Option<int> {
    if p + n <= s.len() {
        Some(unle(s.subrange(p, p + n)))
    } else {
        None
    }
}

/// A message being read, and how far.
pub struct Rdr<'a> {
    pub b: &'a [u8],
    pub p: usize,
}

impl<'a> Rdr<'a> {
    pub open spec fn wf(self) -> bool {
        self.p <= self.b@.len()
    }

    pub fn new(b: &'a [u8]) -> (r: Rdr<'a>)
        ensures
            r.wf(),
            r.b@ == b@,
            r.p == 0,
    {
        Rdr { b, p: 0 }
    }

    /// The next `n` bytes; nothing moves when they are not all there.
    pub fn take(&mut self, n: usize) -> (r: Option<&'a [u8]>)
        requires
            old(self).wf(),
        ensures
            final(self).wf(),
            final(self).b@ == old(self).b@,
            match r {
                Some(s) => old(self).p + n <= old(self).b@.len() && final(self).p == old(self).p + n && s@
                    == old(self).b@.subrange(old(self).p as int, old(self).p + n),
                None => old(self).p + n > old(self).b@.len() && final(self).p == old(self).p,
            },
    {
        if n <= self.b.len() - self.p {
            let s = vstd::slice::slice_subrange(self.b, self.p, self.p + n);
            self.p = self.p + n;
            Some(s)
        } else {
            None
        }
    }

    fn get(&mut self, n: usize) -> (r: Option<u64>)
        requires
            old(self).wf(),
            n <= 8,
        ensures
            final(self).wf(),
            final(self).b@ == old(self).b@,
            match r {
                Some(v) => rd(old(self).b@, old(self).p as int, n as int) == Some(v as int) && final(self).p
                    == old(self).p + n && v < pow256(n as nat),
                None => rd(old(self).b@, old(self).p as int, n as int) is None && final(self).p == old(
                    self,
                ).p,
            },
    {
        let s = match self.take(n) {
            Some(s) => s,
            None => {
                return None;
            },
        };
        let mut v: u64 = 0;
        let mut i: usize = n;
        proof {
            unle_roundtrip(s@);
            assert(s@.skip(n as int) =~= Seq::<u8>::empty());
            lemma_pow256();
            lemma_pow_le(n as nat);
        }
        while i > 0
            invariant
                i <= n,
                n <= 8,
                s@.len() == n,
                v == unle(s@.skip(i as int)),
                pow256(n as nat) <= 0x1_0000_0000_0000_0000,
                unle(s@) < pow256(n as nat),
            decreases i,
        {
            proof {
                assert(s@.skip(i - 1).drop_first() =~= s@.skip(i as int));
                lemma_suffix_le(s@, i - 1);
            }
            i = i - 1;
            v = v * 256 + s[i] as u64;
        }
        proof {
            assert(s@.skip(0) =~= s@);
        }
        Some(v)
    }

    pub fn u8(&mut self) -> (r: Option<u8>)
        requires
            old(self).wf(),
        ensures
            final(self).wf(),
            final(self).b@ == old(self).b@,
            read_as(old(self).b@, old(self).p as int, 1, opt_int(r), final(self).p as int),
            r is Some ==> r->0 == old(self).b@[old(self).p as int],
    {
        proof {
            lemma_pow256();
        }
        match self.get(1) {
            Some(v) => {
                proof {
                    let s = self.b@.subrange(self.p - 1, self.p as int);
                    assert(s.drop_first() =~= Seq::<u8>::empty());
                    assert(unle(s) == s[0]);
                }
                Some(v as u8)
            },
            None => None,
        }
    }

    pub fn u16(&mut self) -> (r: Option<u16>)
        requires
            old(self).wf(),
        ensures
            final(self).wf(),
            final(self).b@ == old(self).b@,
            read_as(
                old(self).b@,
                old(self).p as int,
                2,
                match r {
                    Some(v) => Some(v as int),
                    None => None,
                },
                final(self).p as int,
            ),
    {
        proof {
            lemma_pow256();
        }
        match self.get(2) {
            Some(v) => Some(v as u16),
            None => None,
        }
    }

    pub fn u32(&mut self) -> (r: Option<u32>)
        requires
            old(self).wf(),
        ensures
            final(self).wf(),
            final(self).b@ == old(self).b@,
            read_as(
                old(self).b@,
                old(self).p as int,
                4,
                match r {
                    Some(v) => Some(v as int),
                    None => None,
                },
                final(self).p as int,
            ),
    {
        proof {
            lemma_pow256();
        }
        match self.get(4) {
            Some(v) => Some(v as u32),
            None => None,
        }
    }

    pub fn u64(&mut self) -> (r: Option<u64>)
        requires
            old(self).wf(),
        ensures
            final(self).wf(),
            final(self).b@ == old(self).b@,
            read_as(
                old(self).b@,
                old(self).p as int,
                8,
                match r {
                    Some(v) => Some(v as int),
                    None => None,
                },
                final(self).p as int,
            ),
    {
        self.get(8)
    }

    /// A single-precision number by its bit pattern.
    pub fn num(&mut self) -> (r: Option<Num>)
        requires
            old(self).wf(),
        ensures
            final(self).wf(),
            final(self).b@ == old(self).b@,
            read_as(
                old(self).b@,
                old(self).p as int,
                4,
                match r {
                    Some(v) => Some(v.bits as int),
                    None => None,
                },
                final(self).p as int,
            ),
    {
        match self.u32() {
            Some(bits) => Some(Num { bits }),
            None => None,
        }
    }
}

pub open spec fn opt_int(r: Option<u8>) -> Option<int> {
    match r {
        Some(v) => Some(v as int),
        None => None,
    }
}

/// A read of `n` bytes at `p` that gave `r` and left the reader at `q`: past the
/// bytes if they were all there, and where it was otherwise.
pub open spec fn read_as(s: Seq<u8>, p: int, n: int, r: Option<int>, q: int) -> bool {
    r == rd(s, p, n) && q == (if r is Some {
        p + n
    } else {
        p
    })
}

proof fn lemma_pow_le(n: nat)
    requires
        n <= 8,
    ensures
        0 < pow256(n) <= 0x1_0000_0000_0000_0000,
{
    reveal_with_fuel(pow256, 9);
}

proof fn lemma_suffix_le(s: Seq<u8>, i: int)
    requires
        0 <= i <= s.len(),
    ensures
        0 <= unle(s.skip(i)) <= unle(s),
    decreases i,
{
    unle_roundtrip(s.skip(i));
    if i > 0 {
        lemma_suffix_le(s, i - 1);
        assert(s.skip(i - 1).drop_first() =~= s.skip(i));
    } else {
        assert(s.skip(0) =~= s);
    }
}


// ---- commands ------------------------------------------------------------------

/// A list of ids: its length in two bytes, then the ids. Only as many go out as the
/// length can count.
pub open spec fn enc_ids_of(ids: Seq<u32>) -> Seq<u8> {
    let n = if ids.len() > 65_535 {
        65_535
    } else {
        ids.len() as int
    };
    le(n, 2) + id_bytes(ids.take(n))
}

/// The bytes of ids, one after the other.
pub open spec fn id_bytes(ids: Seq<u32>) -> Seq<u8>
    decreases ids.len(),
{
    if ids.len() == 0 {
        Seq::empty()
    } else {
        id_bytes(ids.drop_last()) + le(ids.last() as int, 4)
    }
}

/// A list of ids at position `p`, and where it ends.
pub open spec fn dec_ids_of(s: Seq<u8>, p: int) -> Option<(Seq<u32>, int)> {
    match rd(s, p, 2) {
        None => None,
        Some(n) => if p + 2 + 4 * n <= s.len() {
            Some((ids_at(s, p + 2, n), p + 2 + 4 * n))
        } else {
            None
        },
    }
}

/// The `n` ids that start at position `p`.
pub open spec fn ids_at(s: Seq<u8>, p: int, n: int) -> Seq<u32> {
    Seq::new(n as nat, |i: int| unle(s.subrange(p + 4 * i, p + 4 * i + 4)) as u32)
}

pub open spec fn flag(b: bool) -> u8 {
    if b {
        1
    } else {
        0
    }
}

/// The bytes of a command: a tag, then its fields.
pub open spec fn enc_cmd_of(c: CmdV) -> Seq<u8> {
    match c {
        CmdV::Order { ids, x, y, attack_move, queue } => seq![1u8] + enc_ids_of(ids) + le(
            x.bits as int,
            4,
        ) + le(y.bits as int, 4) + seq![flag(attack_move)] + seq![flag(queue)],
        CmdV::Stop { ids } => seq![2u8] + enc_ids_of(ids),
        CmdV::Train { building, unit } => seq![3u8] + le(building as int, 4) + seq![kind_to_u8(unit)],
        CmdV::Build { worker, kind, x, y, chain } => seq![4u8] + le(worker as int, 4) + seq![
            kind_to_u8(kind),
        ] + le(x.bits as int, 4) + le(y.bits as int, 4) + seq![flag(chain)],
        CmdV::Rally { building, x, y } => seq![5u8] + le(building as int, 4) + le(x.bits as int, 4)
            + le(y.bits as int, 4),
        CmdV::Cancel { building } => seq![6u8] + le(building as int, 4),
        CmdV::Surrender => seq![7u8],
    }
}

pub open spec fn rd_u32(s: Seq<u8>, p: int) -> u32 {
    unle(s.subrange(p, p + 4)) as u32
}

pub open spec fn rd_num(s: Seq<u8>, p: int) -> Num {
    Num { bits: rd_u32(s, p) }
}

/// The command at position `p`, and where it ends; none if its tag is unknown or it
/// is cut short.
pub open spec fn dec_cmd_of(s: Seq<u8>, p: int) -> Option<(CmdV, int)> {
    if p + 1 > s.len() {
        None
    } else if s[p] == 1 {
        match dec_ids_of(s, p + 1) {
            None => None,
            Some((ids, q)) => if q + 10 <= s.len() {
                Some(
                    (
                        CmdV::Order {
                            ids,
                            x: rd_num(s, q),
                            y: rd_num(s, q + 4),
                            attack_move: s[q + 8] != 0,
                            queue: s[q + 9] != 0,
                        },
                        q + 10,
                    ),
                )
            } else {
                None
            },
        }
    } else if s[p] == 2 {
        match dec_ids_of(s, p + 1) {
            None => None,
            Some((ids, q)) => Some((CmdV::Stop { ids }, q)),
        }
    } else if s[p] == 3 {
        if p + 6 <= s.len() {
            Some(
                (
                    CmdV::Train { building: rd_u32(s, p + 1), unit: kind_from_u8(s[p + 5]) },
                    p + 6,
                ),
            )
        } else {
            None
        }
    } else if s[p] == 4 {
        if p + 15 <= s.len() {
            Some(
                (
                    CmdV::Build {
                        worker: rd_u32(s, p + 1),
                        kind: kind_from_u8(s[p + 5]),
                        x: rd_num(s, p + 6),
                        y: rd_num(s, p + 10),
                        chain: s[p + 14] != 0,
                    },
                    p + 15,
                ),
            )
        } else {
            None
        }
    } else if s[p] == 5 {
        if p + 13 <= s.len() {
            Some(
                (
                    CmdV::Rally {
                        building: rd_u32(s, p + 1),
                        x: rd_num(s, p + 5),
                        y: rd_num(s, p + 9),
                    },
                    p + 13,
                ),
            )
        } else {
            None
        }
    } else if s[p] == 6 {
        if p + 5 <= s.len() {
            Some((CmdV::Cancel { building: rd_u32(s, p + 1) }, p + 5))
        } else {
            None
        }
    } else if s[p] == 7 {
        Some((CmdV::Surrender, p + 1))
    } else {
        None
    }
}

/// Appends a list of ids.
pub fn enc_ids(buf: &mut Buf, ids: &Vec<u32>)
    ensures
        final(buf).0@ == old(buf).0@ + enc_ids_of(ids@),
{
    let n: usize = if ids.len() > 65_535 { 65_535 } else { ids.len() };
    let ghost b0 = buf.0@;
    buf.u16(n as u16);
    let ghost b1 = buf.0@;
    let mut i: usize = 0;
    assert(ids@.take(0) =~= Seq::<u32>::empty());
    assert(b1 + id_bytes(ids@.take(0)) =~= b1);
    while i < n
        invariant
            i <= n <= ids@.len(),
            buf.0@ == b1 + id_bytes(ids@.take(i as int)),
        decreases n - i,
    {
        let ghost before = buf.0@;
        buf.u32(ids[i]);
        proof {
            assert(ids@.take(i + 1).drop_last() =~= ids@.take(i as int));
            assert(ids@.take(i + 1).last() == ids@[i as int]);
            assert(before + le(ids@[i as int] as int, 4) =~= b1 + (id_bytes(ids@.take(i as int)) + le(
                ids@[i as int] as int,
                4,
            )));
        }
        i = i + 1;
    }
    assert(buf.0@ =~= b0 + (le(n as int, 2) + id_bytes(ids@.take(n as int))));
}

/// Reads a list of ids. The claimed count is not trusted: no list is made unless the
/// bytes for it are there.
pub fn dec_ids(r: &mut Rdr) -> (o: Option<Vec<u32>>)
    requires
        old(r).wf(),
    ensures
        final(r).wf(),
        final(r).b@ == old(r).b@,
        match o {
            Some(ids) => dec_ids_of(old(r).b@, old(r).p as int) == Some((ids@, final(r).p as int)),
            None => dec_ids_of(old(r).b@, old(r).p as int) is None,
        },
{
    let ghost s = r.b@;
    let ghost p0 = r.p as int;
    let n: usize = match r.u16() {
        Some(v) => v as usize,
        None => {
            return None;
        },
    };
    let mut v: Vec<u32> = Vec::new();
    let mut i: usize = 0;
    while i < n
        invariant
            r.wf(),
            r.b@ == s,
            s == old(r).b@,
            p0 == old(r).p,
            i <= n,
            r.p == p0 + 2 + 4 * i,
            rd(s, p0, 2) == Some(n as int),
            v@.len() == i,
            forall|k: int| 0 <= k < i ==> v@[k] == #[trigger] ids_at(s, p0 + 2, n as int)[k],
        decreases n - i,
    {
        match r.u32() {
            Some(id) => v.push(id),
            None => {
                return None;
            },
        }
        i = i + 1;
    }
    assert(v@ =~= ids_at(s, p0 + 2, n as int));
    Some(v)
}

/// Appends a command.
pub fn enc_cmd(buf: &mut Buf, c: &Cmd)
    ensures
        final(buf).0@ == old(buf).0@ + enc_cmd_of(c@),
{
    let ghost b0 = buf.0@;
    match c {
        Cmd::Order { ids, x, y, attack_move, queue } => {
            buf.u8(1);
            enc_ids(buf, ids);
            buf.num(*x);
            buf.num(*y);
            buf.u8(if *attack_move { 1 } else { 0 });
            buf.u8(if *queue { 1 } else { 0 });
        },
        Cmd::Stop { ids } => {
            buf.u8(2);
            enc_ids(buf, ids);
        },
        Cmd::Train { building, unit } => {
            buf.u8(3);
            buf.u32(*building);
            buf.u8(kind_to_u8(*unit));
        },
        Cmd::Build { worker, kind, x, y, chain } => {
            buf.u8(4);
            buf.u32(*worker);
            buf.u8(kind_to_u8(*kind));
            buf.num(*x);
            buf.num(*y);
            buf.u8(if *chain { 1 } else { 0 });
        },
        Cmd::Rally { building, x, y } => {
            buf.u8(5);
            buf.u32(*building);
            buf.num(*x);
            buf.num(*y);
        },
        Cmd::Cancel { building } => {
            buf.u8(6);
            buf.u32(*building);
        },
        Cmd::Surrender => {
            buf.u8(7);
        },
    }
    assert(buf.0@ =~= b0 + enc_cmd_of(c@));
}

/// Reads a command.
pub fn dec_cmd(r: &mut Rdr) -> (o: Option<Cmd>)
    requires
        old(r).wf(),
    ensures
        final(r).wf(),
        final(r).b@ == old(r).b@,
        match o {
            Some(c) => dec_cmd_of(old(r).b@, old(r).p as int) == Some((c@, final(r).p as int)),
            None => dec_cmd_of(old(r).b@, old(r).p as int) is None,
        },
{
    let tag: u8 = match r.u8() {
        Some(t) => t,
        None => {
            return None;
        },
    };
    if tag == 1 {
        match dec_ids(r) {
            Some(ids) => match (r.num(), r.num(), r.u8(), r.u8()) {
                (Some(x), Some(y), Some(a), Some(q)) => Some(
                    Cmd::Order { ids, x, y, attack_move: a != 0, queue: q != 0 },
                ),
                _ => None,
            },
            None => None,
        }
    } else if tag == 2 {
        match dec_ids(r) {
            Some(ids) => Some(Cmd::Stop { ids }),
            None => None,
        }
    } else if tag == 3 {
        match (r.u32(), r.u8()) {
            (Some(building), Some(k)) => Some(Cmd::Train { building, unit: kind_from_u8(k) }),
            _ => None,
        }
    } else if tag == 4 {
        match (r.u32(), r.u8(), r.num(), r.num(), r.u8()) {
            (Some(worker), Some(k), Some(x), Some(y), Some(c)) => Some(
                Cmd::Build { worker, kind: kind_from_u8(k), x, y, chain: c != 0 },
            ),
            _ => None,
        }
    } else if tag == 5 {
        match (r.u32(), r.num(), r.num()) {
            (Some(building), Some(x), Some(y)) => Some(Cmd::Rally { building, x, y }),
            _ => None,
        }
    } else if tag == 6 {
        match r.u32() {
            Some(building) => Some(Cmd::Cancel { building }),
            None => None,
        }
    } else if tag == 7 {
        Some(Cmd::Surrender)
    } else {
        None
    }
}


// ---- messages ------------------------------------------------------------------

/// A message between peers. Steps and checks name the faction they come from, so that
/// the host can pass them on; the other two set up the match.
#[derive(Debug)]
pub enum Msg {
    Step { faction: u8, step: u32, cmds: Vec<Cmd> },
    Check { faction: u8, step: u32, hash: u64 },
    Welcome { faction: u8 },
    Start { seed: u64, factions: u8, ai_mask: u8, teams: u8 },
}

/// A message with its commands as a sequence.
#[verifier::ext_equal]
pub enum MsgV {
    Step { faction: u8, step: u32, cmds: Seq<CmdV> },
    Check { faction: u8, step: u32, hash: u64 },
    Welcome { faction: u8 },
    Start { seed: u64, factions: u8, ai_mask: u8, teams: u8 },
}

impl View for Msg {
    type V = MsgV;

    open spec fn view(&self) -> MsgV {
        match *self {
            Msg::Step { faction, step, cmds } => MsgV::Step { faction, step, cmds: cmds_view(cmds@) },
            Msg::Check { faction, step, hash } => MsgV::Check { faction, step, hash },
            Msg::Welcome { faction } => MsgV::Welcome { faction },
            Msg::Start { seed, factions, ai_mask, teams } => MsgV::Start {
                seed,
                factions,
                ai_mask,
                teams,
            },
        }
    }
}

/// The bytes of commands, one after the other.
pub open spec fn enc_cmds_of(cmds: Seq<CmdV>) -> Seq<u8>
    decreases cmds.len(),
{
    if cmds.len() == 0 {
        Seq::empty()
    } else {
        enc_cmds_of(cmds.drop_last()) + enc_cmd_of(cmds.last())
    }
}

/// How many of a step's commands go out.
pub open spec fn sent_count(n: nat) -> int {
    if n > 255 {
        255
    } else {
        n as int
    }
}

/// The bytes of a message: a tag, then its fields.
pub open spec fn enc_msg_of(m: MsgV) -> Seq<u8> {
    match m {
        MsgV::Step { faction, step, cmds } => seq![1u8] + seq![faction] + le(step as int, 4) + seq![
            sent_count(cmds.len()) as u8,
        ] + enc_cmds_of(cmds.take(sent_count(cmds.len()))),
        MsgV::Check { faction, step, hash } => seq![2u8] + seq![faction] + le(step as int, 4) + le(
            hash as int,
            8,
        ),
        MsgV::Welcome { faction } => seq![3u8] + seq![faction],
        MsgV::Start { seed, factions, ai_mask, teams } => seq![4u8] + le(seed as int, 8) + seq![factions]
            + seq![ai_mask] + seq![teams],
    }
}

/// The `n` commands at position `p`, and where they end.
pub open spec fn dec_cmds_of(s: Seq<u8>, p: int, n: int) -> Option<(Seq<CmdV>, int)>
    decreases n,
{
    if n <= 0 {
        Some((Seq::empty(), p))
    } else {
        match dec_cmds_of(s, p, n - 1) {
            None => None,
            Some((cmds, q)) => match dec_cmd_of(s, q) {
                None => None,
                Some((c, e)) => Some((cmds.push(c), e)),
            },
        }
    }
}

/// The message that bytes start with. Bytes past its end are ignored.
pub open spec fn dec_msg_of(s: Seq<u8>) -> Option<MsgV> {
    if s.len() < 1 {
        None
    } else if s[0] == 1 {
        if s.len() < 7 {
            None
        } else {
            match dec_cmds_of(s, 7, s[6] as int) {
                None => None,
                Some((cmds, q)) => Some(MsgV::Step { faction: s[1], step: rd_u32(s, 2), cmds }),
            }
        }
    } else if s[0] == 2 {
        if s.len() < 14 {
            None
        } else {
            Some(
                MsgV::Check {
                    faction: s[1],
                    step: rd_u32(s, 2),
                    hash: unle(s.subrange(6, 14)) as u64,
                },
            )
        }
    } else if s[0] == 3 {
        if s.len() < 2 {
            None
        } else {
            Some(MsgV::Welcome { faction: s[1] })
        }
    } else if s[0] == 4 {
        if s.len() < 12 {
            None
        } else {
            Some(
                MsgV::Start {
                    seed: unle(s.subrange(1, 9)) as u64,
                    factions: s[9],
                    ai_mask: s[10],
                    teams: s[11],
                },
            )
        }
    } else {
        None
    }
}

/// Encodes a message.
pub fn enc_msg(m: &Msg) -> (r: Vec<u8>)
    ensures
        r@ == enc_msg_of(m@),
{
    let mut b = Buf(Vec::new());
    match m {
        Msg::Step { faction, step, cmds } => {
            b.u8(1);
            b.u8(*faction);
            b.u32(*step);
            let n: usize = if cmds.len() > 255 { 255 } else { cmds.len() };
            b.u8(n as u8);
            let ghost head = b.0@;
            let ghost cv = cmds_view(cmds@);
            let mut i: usize = 0;
            assert(cv.take(0) =~= Seq::<CmdV>::empty());
            assert(head + enc_cmds_of(cv.take(0)) =~= head);
            while i < n
                invariant
                    i <= n <= cmds@.len(),
                    cv == cmds_view(cmds@),
                    b.0@ == head + enc_cmds_of(cv.take(i as int)),
                decreases n - i,
            {
                let ghost before = b.0@;
                enc_cmd(&mut b, &cmds[i]);
                proof {
                    assert(cv.take(i + 1).drop_last() =~= cv.take(i as int));
                    assert(cv.take(i + 1).last() == cmds@[i as int]@);
                    assert(before + enc_cmd_of(cv[i as int]) =~= head + (enc_cmds_of(
                        cv.take(i as int),
                    ) + enc_cmd_of(cv[i as int])));
                }
                i = i + 1;
            }
            assert(b.0@ =~= enc_msg_of(m@));
        },
        Msg::Check { faction, step, hash } => {
            b.u8(2);
            b.u8(*faction);
            b.u32(*step);
            b.u64(*hash);
            assert(b.0@ =~= enc_msg_of(m@));
        },
        Msg::Welcome { faction } => {
            b.u8(3);
            b.u8(*faction);
            assert(b.0@ =~= enc_msg_of(m@));
        },
        Msg::Start { seed, factions, ai_mask, teams } => {
            b.u8(4);
            b.u64(*seed);
            b.u8(*factions);
            b.u8(*ai_mask);
            b.u8(*teams);
            assert(b.0@ =~= enc_msg_of(m@));
        },
    }
    b.0
}

/// Decodes a message.
pub fn dec_msg(bytes: &[u8]) -> (o: Option<Msg>)
    ensures
        match o {
            Some(m) => dec_msg_of(bytes@) == Some(m@),
            None => dec_msg_of(bytes@) is None,
        },
{
    let ghost s = bytes@;
    let mut r = Rdr::new(bytes);
    let tag: u8 = match r.u8() {
        Some(t) => t,
        None => {
            return None;
        },
    };
    if tag == 1 {
        let (faction, step, n) = match (r.u8(), r.u32(), r.u8()) {
            (Some(f), Some(st), Some(n)) => (f, st, n),
            _ => {
                return None;
            },
        };
        let mut cmds: Vec<Cmd> = Vec::new();
        let mut i: u8 = 0;
        assert(cmds_view(cmds@) =~= Seq::<CmdV>::empty());
        while i < n
            invariant
                i <= n,
                s == bytes@,
                r.wf(),
                r.b@ == s,
                s.len() >= 7,
                s[0] == 1,
                s[6] == n,
                dec_cmds_of(s, 7, i as int) == Some((cmds_view(cmds@), r.p as int)),
            decreases n - i,
        {
            let ghost before = cmds@;
            match dec_cmd(&mut r) {
                Some(c) => {
                    cmds.push(c);
                    proof {
                        assert(cmds_view(cmds@) =~= cmds_view(before).push(c@));
                    }
                },
                None => {
                    proof {
                        lemma_cut_short(s, 7, i + 1, n as int);
                    }
                    return None;
                },
            }
            i = i + 1;
        }
        Some(Msg::Step { faction, step, cmds })
    } else if tag == 2 {
        match (r.u8(), r.u32(), r.u64()) {
            (Some(faction), Some(step), Some(hash)) => Some(Msg::Check { faction, step, hash }),
            _ => None,
        }
    } else if tag == 3 {
        match r.u8() {
            Some(faction) => Some(Msg::Welcome { faction }),
            None => None,
        }
    } else if tag == 4 {
        match (r.u64(), r.u8(), r.u8(), r.u8()) {
            (Some(seed), Some(factions), Some(ai_mask), Some(teams)) => Some(
                Msg::Start { seed, factions, ai_mask, teams },
            ),
            _ => None,
        }
    } else {
        None
    }
}

/// Where a few commands cannot be read, neither can more.
proof fn lemma_cut_short(s: Seq<u8>, p: int, i: int, n: int)
    requires
        i <= n,
        dec_cmds_of(s, p, i) is None,
    ensures
        dec_cmds_of(s, p, n) is None,
    decreases n,
{
    if i < n {
        lemma_cut_short(s, p, i, n - 1);
    }
}


// ---- what goes out comes back ----------------------------------------------------

/// Bytes written anywhere into a message read back as the number they were.
proof fn lemma_field(s: Seq<u8>, p: int, v: int, n: nat)
    requires
        0 <= p,
        p + n <= s.len(),
        s.subrange(p, p + n) == le(v, n),
        0 <= v < pow256(n),
    ensures
        rd(s, p, n as int) == Some(v),
{
    le_roundtrip(v, n);
}

proof fn lemma_id_bytes_len(ids: Seq<u32>)
    ensures
        id_bytes(ids).len() == 4 * ids.len(),
    decreases ids.len(),
{
    if ids.len() > 0 {
        lemma_id_bytes_len(ids.drop_last());
        lemma_le_len(ids.last() as int, 4);
    }
}

proof fn lemma_id_bytes_at(ids: Seq<u32>, i: int)
    requires
        0 <= i < ids.len(),
    ensures
        id_bytes(ids).len() == 4 * ids.len(),
        id_bytes(ids).subrange(4 * i, 4 * i + 4) == le(ids[i] as int, 4),
    decreases ids.len(),
{
    lemma_id_bytes_len(ids);
    lemma_id_bytes_len(ids.drop_last());
    lemma_le_len(ids.last() as int, 4);
    let a = id_bytes(ids.drop_last());
    let b = le(ids.last() as int, 4);
    if i < ids.len() - 1 {
        lemma_id_bytes_at(ids.drop_last(), i);
        assert((a + b).subrange(4 * i, 4 * i + 4) =~= a.subrange(4 * i, 4 * i + 4));
    } else {
        assert((a + b).subrange(4 * i, 4 * i + 4) =~= b);
    }
}

proof fn lemma_ids_roundtrip(pre: Seq<u8>, ids: Seq<u32>, post: Seq<u8>)
    requires
        ids.len() <= 65_535,
    ensures
        enc_ids_of(ids).len() == 2 + 4 * ids.len(),
        dec_ids_of(pre + enc_ids_of(ids) + post, pre.len() as int) == Some(
            (ids, (pre.len() + 2 + 4 * ids.len()) as int),
        ),
{
    let s = pre + enc_ids_of(ids) + post;
    let p = pre.len() as int;
    let n = ids.len() as int;
    lemma_pow256();
    lemma_le_len(n, 2);
    lemma_id_bytes_len(ids);
    assert(ids.take(n) =~= ids);
    assert(s.subrange(p, p + 2) =~= le(n, 2));
    lemma_field(s, p, n, 2);
    assert(ids_at(s, p + 2, n) =~= ids) by {
        assert forall|i: int| 0 <= i < n implies ids_at(s, p + 2, n)[i] == ids[i] by {
            lemma_id_bytes_at(ids, i);
            assert(s.subrange(p + 2 + 4 * i, p + 2 + 4 * i + 4) =~= id_bytes(ids).subrange(
                4 * i,
                4 * i + 4,
            ));
            le_roundtrip(ids[i] as int, 4);
        }
    }
}

/// Whether a command's ids can all be counted on the wire.
pub open spec fn encodable(c: CmdV) -> bool {
    match c {
        CmdV::Order { ids, .. } => ids.len() <= 65_535,
        CmdV::Stop { ids } => ids.len() <= 65_535,
        _ => true,
    }
}

/// Where the parts of an encoded order lie.
proof fn lemma_order_layout(
    pre: Seq<u8>,
    ids: Seq<u8>,
    bx: Seq<u8>,
    by: Seq<u8>,
    f: u8,
    g: u8,
    post: Seq<u8>,
)
    requires
        bx.len() == 4,
        by.len() == 4,
    ensures
        ({
            let s = pre + (seq![1u8] + ids + bx + by + seq![f] + seq![g]) + post;
            let q = (pre.len() + 1 + ids.len()) as int;
            &&& s == (pre + seq![1u8]) + ids + (bx + by + seq![f] + seq![g] + post)
            &&& s.len() == q + 10 + post.len()
            &&& s[pre.len() as int] == 1
            &&& s.subrange(q, q + 4) == bx
            &&& s.subrange(q + 4, q + 8) == by
            &&& s[q + 8] == f
            &&& s[q + 9] == g
        }),
{
    let s = pre + (seq![1u8] + ids + bx + by + seq![f] + seq![g]) + post;
    let q = (pre.len() + 1 + ids.len()) as int;
    assert(s =~= (pre + seq![1u8]) + ids + (bx + by + seq![f] + seq![g] + post));
    assert(s.subrange(q, q + 4) =~= bx);
    assert(s.subrange(q + 4, q + 8) =~= by);
}

proof fn lemma_order_roundtrip(pre: Seq<u8>, c: CmdV, post: Seq<u8>)
    requires
        encodable(c),
        c is Order,
    ensures
        dec_cmd_of(pre + enc_cmd_of(c) + post, pre.len() as int) == Some(
            (c, (pre.len() + enc_cmd_of(c).len()) as int),
        ),
{
    let s = pre + enc_cmd_of(c) + post;
    lemma_pow256();
    if let CmdV::Order { ids, x, y, attack_move, queue } = c {
        let e = enc_ids_of(ids);
        let bx = le(x.bits as int, 4);
        let by = le(y.bits as int, 4);
        let f = flag(attack_move);
        let g = flag(queue);
        lemma_le_len(x.bits as int, 4);
        lemma_le_len(y.bits as int, 4);
        lemma_order_layout(pre, e, bx, by, f, g, post);
        lemma_ids_roundtrip(pre + seq![1u8], ids, bx + by + seq![f] + seq![g] + post);
        let q = (pre.len() + 1 + e.len()) as int;
        lemma_field(s, q, x.bits as int, 4);
        lemma_field(s, q + 4, y.bits as int, 4);
    }
}

proof fn lemma_stop_roundtrip(pre: Seq<u8>, c: CmdV, post: Seq<u8>)
    requires
        encodable(c),
        c is Stop,
    ensures
        dec_cmd_of(pre + enc_cmd_of(c) + post, pre.len() as int) == Some(
            (c, (pre.len() + enc_cmd_of(c).len()) as int),
        ),
{
    let s = pre + enc_cmd_of(c) + post;
    let p = pre.len() as int;
    lemma_pow256();
    if let CmdV::Stop { ids } = c {
        lemma_ids_roundtrip(pre + seq![2u8], ids, post);
        assert(s =~= (pre + seq![2u8]) + enc_ids_of(ids) + post);
        assert(s[p] == 2);
    }
}

proof fn lemma_train_roundtrip(pre: Seq<u8>, c: CmdV, post: Seq<u8>)
    requires
        encodable(c),
        c is Train,
    ensures
        dec_cmd_of(pre + enc_cmd_of(c) + post, pre.len() as int) == Some(
            (c, (pre.len() + enc_cmd_of(c).len()) as int),
        ),
{
    let s = pre + enc_cmd_of(c) + post;
    let p = pre.len() as int;
    lemma_pow256();
    if let CmdV::Train { building, unit } = c {
        lemma_le_len(building as int, 4);
        kind_byte_roundtrip(unit);
        assert(s.subrange(p + 1, p + 5) =~= le(building as int, 4));
        lemma_field(s, p + 1, building as int, 4);
        assert(s[p] == 3);
        assert(s[p + 5] == kind_to_u8(unit));
    }
}

proof fn lemma_build_roundtrip(pre: Seq<u8>, c: CmdV, post: Seq<u8>)
    requires
        encodable(c),
        c is Build,
    ensures
        dec_cmd_of(pre + enc_cmd_of(c) + post, pre.len() as int) == Some(
            (c, (pre.len() + enc_cmd_of(c).len()) as int),
        ),
{
    let s = pre + enc_cmd_of(c) + post;
    let p = pre.len() as int;
    lemma_pow256();
    if let CmdV::Build { worker, kind, x, y, chain } = c {
        lemma_le_len(worker as int, 4);
        lemma_le_len(x.bits as int, 4);
        lemma_le_len(y.bits as int, 4);
        kind_byte_roundtrip(kind);
        assert(s.subrange(p + 1, p + 5) =~= le(worker as int, 4));
        assert(s.subrange(p + 6, p + 10) =~= le(x.bits as int, 4));
        assert(s.subrange(p + 10, p + 14) =~= le(y.bits as int, 4));
        lemma_field(s, p + 1, worker as int, 4);
        lemma_field(s, p + 6, x.bits as int, 4);
        lemma_field(s, p + 10, y.bits as int, 4);
        assert(s[p] == 4);
        assert(s[p + 5] == kind_to_u8(kind));
        assert(s[p + 14] == flag(chain));
    }
}

proof fn lemma_rally_roundtrip(pre: Seq<u8>, c: CmdV, post: Seq<u8>)
    requires
        encodable(c),
        c is Rally,
    ensures
        dec_cmd_of(pre + enc_cmd_of(c) + post, pre.len() as int) == Some(
            (c, (pre.len() + enc_cmd_of(c).len()) as int),
        ),
{
    let s = pre + enc_cmd_of(c) + post;
    let p = pre.len() as int;
    lemma_pow256();
    if let CmdV::Rally { building, x, y } = c {
        lemma_le_len(building as int, 4);
        lemma_le_len(x.bits as int, 4);
        lemma_le_len(y.bits as int, 4);
        assert(s.subrange(p + 1, p + 5) =~= le(building as int, 4));
        assert(s.subrange(p + 5, p + 9) =~= le(x.bits as int, 4));
        assert(s.subrange(p + 9, p + 13) =~= le(y.bits as int, 4));
        lemma_field(s, p + 1, building as int, 4);
        lemma_field(s, p + 5, x.bits as int, 4);
        lemma_field(s, p + 9, y.bits as int, 4);
        assert(s[p] == 5);
    }
}

proof fn lemma_cancel_roundtrip(pre: Seq<u8>, c: CmdV, post: Seq<u8>)
    requires
        encodable(c),
        c is Cancel,
    ensures
        dec_cmd_of(pre + enc_cmd_of(c) + post, pre.len() as int) == Some(
            (c, (pre.len() + enc_cmd_of(c).len()) as int),
        ),
{
    let s = pre + enc_cmd_of(c) + post;
    let p = pre.len() as int;
    lemma_pow256();
    if let CmdV::Cancel { building } = c {
        lemma_le_len(building as int, 4);
        assert(s.subrange(p + 1, p + 5) =~= le(building as int, 4));
        lemma_field(s, p + 1, building as int, 4);
        assert(s[p] == 6);
    }
}

/// A command that can be encoded decodes to itself wherever it stands in a message,
/// and the reader ends exactly behind it.
pub proof fn cmd_roundtrip(pre: Seq<u8>, c: CmdV, post: Seq<u8>)
    requires
        encodable(c),
    ensures
        dec_cmd_of(pre + enc_cmd_of(c) + post, pre.len() as int) == Some(
            (c, (pre.len() + enc_cmd_of(c).len()) as int),
        ),
{
    match c {
        CmdV::Order { .. } => lemma_order_roundtrip(pre, c, post),
        CmdV::Stop { .. } => lemma_stop_roundtrip(pre, c, post),
        CmdV::Train { .. } => lemma_train_roundtrip(pre, c, post),
        CmdV::Build { .. } => lemma_build_roundtrip(pre, c, post),
        CmdV::Rally { .. } => lemma_rally_roundtrip(pre, c, post),
        CmdV::Cancel { .. } => lemma_cancel_roundtrip(pre, c, post),
        CmdV::Surrender => {
            let s = pre + enc_cmd_of(c) + post;
            assert(s[pre.len() as int] == 7);
        },
    }
}

proof fn lemma_cmds_roundtrip(pre: Seq<u8>, cmds: Seq<CmdV>, post: Seq<u8>)
    requires
        forall|i: int| 0 <= i < cmds.len() ==> encodable(#[trigger] cmds[i]),
    ensures
        dec_cmds_of(pre + enc_cmds_of(cmds) + post, pre.len() as int, cmds.len() as int) == Some(
            (cmds, (pre.len() + enc_cmds_of(cmds).len()) as int),
        ),
    decreases cmds.len(),
{
    if cmds.len() > 0 {
        let c = cmds.last();
        let front = cmds.drop_last();
        let s = pre + enc_cmds_of(cmds) + post;
        lemma_cmds_roundtrip(pre, front, enc_cmd_of(c) + post);
        assert(s =~= pre + enc_cmds_of(front) + (enc_cmd_of(c) + post));
        cmd_roundtrip(pre + enc_cmds_of(front), c, post);
        assert(s =~= (pre + enc_cmds_of(front)) + enc_cmd_of(c) + post);
        assert(front.push(c) =~= cmds);
    } else {
        assert(cmds =~= Seq::<CmdV>::empty());
    }
}

/// Whether all of a message fits the wire's counts.
pub open spec fn encodable_msg(m: MsgV) -> bool {
    match m {
        MsgV::Step { cmds, .. } => {
            &&& cmds.len() <= 255
            &&& forall|i: int| 0 <= i < cmds.len() ==> encodable(#[trigger] cmds[i])
        },
        _ => true,
    }
}

/// A message that fits the wire's counts decodes to itself.
pub proof fn msg_roundtrip(m: MsgV)
    requires
        encodable_msg(m),
    ensures
        dec_msg_of(enc_msg_of(m)) == Some(m),
{
    let s = enc_msg_of(m);
    lemma_pow256();
    match m {
        MsgV::Step { faction, step, cmds } => {
            let n = cmds.len() as int;
            lemma_le_len(step as int, 4);
            let head = seq![1u8] + seq![faction] + le(step as int, 4) + seq![n as u8];
            assert(cmds.take(n) =~= cmds);
            lemma_cmds_roundtrip(head, cmds, Seq::empty());
            assert(s =~= head + enc_cmds_of(cmds) + Seq::<u8>::empty());
            assert(s.subrange(2, 6) =~= le(step as int, 4));
            lemma_field(s, 2, step as int, 4);
            assert(s[0] == 1 && s[1] == faction && s[6] == n);
        },
        MsgV::Check { faction, step, hash } => {
            lemma_le_len(step as int, 4);
            lemma_le_len(hash as int, 8);
            assert(s.subrange(2, 6) =~= le(step as int, 4));
            assert(s.subrange(6, 14) =~= le(hash as int, 8));
            lemma_field(s, 2, step as int, 4);
            lemma_field(s, 6, hash as int, 8);
            assert(s[0] == 2 && s[1] == faction);
        },
        MsgV::Welcome { faction } => {
            assert(s[0] == 3 && s[1] == faction);
        },
        MsgV::Start { seed, factions, ai_mask, teams } => {
            lemma_le_len(seed as int, 8);
            assert(s.subrange(1, 9) =~= le(seed as int, 8));
            lemma_field(s, 1, seed as int, 8);
            assert(s[0] == 4 && s[9] == factions && s[10] == ai_mask && s[11] == teams);
        },
    }
}

proof fn lemma_same_bytes(s: Seq<u8>, t: Seq<u8>, p: int, n: int)
    requires
        0 <= p,
        0 <= n,
        p + n <= s.len(),
    ensures
        (s + t).subrange(p, p + n) == s.subrange(p, p + n),
{
    assert((s + t).subrange(p, p + n) =~= s.subrange(p, p + n));
}

proof fn lemma_unle_nonneg(s: Seq<u8>)
    ensures
        unle(s) >= 0,
    decreases s.len(),
{
    if s.len() > 0 {
        lemma_unle_nonneg(s.drop_first());
    }
}

proof fn lemma_ids_extend(s: Seq<u8>, t: Seq<u8>, p: int)
    requires
        0 <= p,
        dec_ids_of(s, p) is Some,
    ensures
        dec_ids_of(s + t, p) == dec_ids_of(s, p),
        p <= (dec_ids_of(s, p)->0).1 <= s.len(),
{
    let n = unle(s.subrange(p, p + 2));
    lemma_same_bytes(s, t, p, 2);
    lemma_unle_nonneg(s.subrange(p, p + 2));
    let (u, v) = (ids_at(s + t, p + 2, n), ids_at(s, p + 2, n));
    assert forall|i: int| 0 <= i < n implies #[trigger] u[i] == v[i] by {
        lemma_same_bytes(s, t, p + 2 + 4 * i, 4);
    }
    assert(ids_at(s + t, p + 2, n) =~= ids_at(s, p + 2, n));
}

proof fn lemma_cmd_extends(s: Seq<u8>, t: Seq<u8>, p: int)
    requires
        0 <= p,
        dec_cmd_of(s, p) is Some,
    ensures
        dec_cmd_of(s + t, p) == dec_cmd_of(s, p),
        p < (dec_cmd_of(s, p)->0).1 <= s.len(),
{
    assert((s + t)[p] == s[p]);
    if s[p] == 1 || s[p] == 2 {
        lemma_ids_extend(s, t, p + 1);
        let q = (dec_ids_of(s, p + 1)->0).1;
        if s[p] == 1 {
            lemma_same_bytes(s, t, q, 4);
            lemma_same_bytes(s, t, q + 4, 4);
        }
    } else if s[p] == 3 || s[p] == 6 {
        lemma_same_bytes(s, t, p + 1, 4);
    } else if s[p] == 4 {
        lemma_same_bytes(s, t, p + 1, 4);
        lemma_same_bytes(s, t, p + 6, 4);
        lemma_same_bytes(s, t, p + 10, 4);
    } else if s[p] == 5 {
        lemma_same_bytes(s, t, p + 1, 4);
        lemma_same_bytes(s, t, p + 5, 4);
        lemma_same_bytes(s, t, p + 9, 4);
    }
}

proof fn lemma_cmds_extend(s: Seq<u8>, t: Seq<u8>, p: int, n: int)
    requires
        0 <= p <= s.len(),
        dec_cmds_of(s, p, n) is Some,
    ensures
        dec_cmds_of(s + t, p, n) == dec_cmds_of(s, p, n),
        p <= (dec_cmds_of(s, p, n)->0).1 <= s.len(),
    decreases n,
{
    if n > 0 {
        lemma_cmds_extend(s, t, p, n - 1);
        lemma_cmd_extends(s, t, (dec_cmds_of(s, p, n - 1)->0).1);
    }
}

/// Bytes after a message do not change what it decodes to.
pub proof fn bytes_after_do_not_matter(s: Seq<u8>, t: Seq<u8>)
    requires
        dec_msg_of(s) is Some,
    ensures
        dec_msg_of(s + t) == dec_msg_of(s),
{
    assert((s + t)[0] == s[0]);
    if s[0] == 1 {
        lemma_same_bytes(s, t, 2, 4);
        lemma_cmds_extend(s, t, 7, s[6] as int);
        assert((s + t)[6] == s[6]);
    } else if s[0] == 2 {
        lemma_same_bytes(s, t, 2, 4);
        lemma_same_bytes(s, t, 6, 8);
    } else if s[0] == 4 {
        lemma_same_bytes(s, t, 1, 8);
    }
}

/// A message that was cut short, wherever it was cut, decodes to nothing.
pub proof fn cut_messages_are_refused(m: MsgV, n: int)
    requires
        encodable_msg(m),
        0 <= n < enc_msg_of(m).len(),
    ensures
        dec_msg_of(enc_msg_of(m).take(n)) is None,
{
    let s = enc_msg_of(m);
    let a = s.take(n);
    let b = s.skip(n);
    assert(a + b =~= s);
    if n > 0 {
        assert(a[0] == s[0]);
    }
    match m {
        MsgV::Step { faction, step, cmds } => {
            let k = cmds.len() as int;
            lemma_le_len(step as int, 4);
            let head = seq![1u8] + seq![faction] + le(step as int, 4) + seq![k as u8];
            assert(cmds.take(k) =~= cmds);
            lemma_cmds_roundtrip(head, cmds, Seq::empty());
            assert(s =~= head + enc_cmds_of(cmds) + Seq::<u8>::empty());
            assert(s[0] == 1);
            if n >= 7 && dec_msg_of(a) is Some {
                assert(a[6] == s[6] && s[6] == k);
                lemma_cmds_extend(a, b, 7, k);
            }
        },
        MsgV::Check { step, hash, .. } => {
            lemma_le_len(step as int, 4);
            lemma_le_len(hash as int, 8);
            assert(s[0] == 2);
        },
        MsgV::Welcome { .. } => {
            assert(s[0] == 3);
        },
        MsgV::Start { seed, .. } => {
            lemma_le_len(seed as int, 8);
            assert(s[0] == 4);
        },
    }
}

// ---- what a sender may put into a step ---------------------------------------------

/// A command with its ids cut to what a step may carry.
pub open spec fn trimmed(c: CmdV) -> CmdV {
    match c {
        CmdV::Order { ids, x, y, attack_move, queue } => CmdV::Order {
            ids: trimmed_ids(ids),
            x,
            y,
            attack_move,
            queue,
        },
        CmdV::Stop { ids } => CmdV::Stop { ids: trimmed_ids(ids) },
        _ => c,
    }
}

pub open spec fn trimmed_ids(ids: Seq<u32>) -> Seq<u32> {
    if ids.len() > STEP_MAX_IDS {
        ids.take(STEP_MAX_IDS as int)
    } else {
        ids
    }
}

/// Size of an encoded step that holds the first `k` of the commands, each trimmed.
pub open spec fn step_size(cmds: Seq<CmdV>, k: int) -> int {
    7 + enc_cmds_of(cmds.take(k).map_values(|c: CmdV| trimmed(c))).len() as int
}

/// Whether `k` is how many of the commands fit into a step: as many as the count
/// allows, or as many as the size does.
pub open spec fn fits_exactly(cmds: Seq<CmdV>, k: int) -> bool {
    &&& 0 <= k <= cmds.len()
    &&& k <= STEP_MAX_CMDS
    &&& step_size(cmds, k) <= STEP_MAX_BYTES
    &&& (k == cmds.len() || k == STEP_MAX_CMDS || step_size(cmds, k + 1) > STEP_MAX_BYTES)
}

/// Cuts a step down to what may go out: the longest run of commands from the front
/// that fits, each with its ids cut to the cap.
pub fn clamp_step(cmds: &mut Vec<Cmd>)
    ensures
        fits_exactly(cmds_view(old(cmds)@), final(cmds)@.len() as int),
        cmds_view(final(cmds)@) == cmds_view(old(cmds)@).take(final(cmds)@.len() as int).map_values(
            |c: CmdV| trimmed(c),
        ),
{
    let ghost cv = cmds_view(cmds@);
    let ghost n0 = cmds@.len();
    let ghost tv = cv.map_values(|c: CmdV| trimmed(c));
    let mut total: usize = 7;
    let mut keep: usize = 0;
    proof {
        assert(cv.take(0).map_values(|c: CmdV| trimmed(c)) =~= Seq::<CmdV>::empty());
    }
    while keep < cmds.len() && keep < STEP_MAX_CMDS
        invariant_except_break
            total == step_size(cv, keep as int),
            forall|i: int| keep <= i < n0 ==> (#[trigger] cmds@[i])@ == cv[i],
        invariant
            n0 == cmds@.len(),
            n0 == cv.len(),
            cv == cmds_view(old(cmds)@),
            keep <= n0,
            keep <= STEP_MAX_CMDS,
            7 <= total <= STEP_MAX_BYTES,
            step_size(cv, keep as int) <= STEP_MAX_BYTES,
            forall|i: int| 0 <= i < keep ==> (#[trigger] cmds@[i])@ == trimmed(cv[i]),
        ensures
            fits_exactly(cv, keep as int),
        decreases n0 - keep,
    {
        let ghost c0 = cmds@[keep as int]@;
        match &mut cmds[keep] {
            Cmd::Order { ids, .. } => ids.truncate(STEP_MAX_IDS),
            Cmd::Stop { ids } => ids.truncate(STEP_MAX_IDS),
            _ => {},
        }
        proof {
            assert(cmds@[keep as int]@ =~= trimmed(c0));
        }
        let mut b = Buf(Vec::new());
        enc_cmd(&mut b, &cmds[keep]);
        proof {
            let a = cv.take(keep as int).map_values(|c: CmdV| trimmed(c));
            let z = cv.take(keep + 1).map_values(|c: CmdV| trimmed(c));
            assert(z.drop_last() =~= a);
            assert(z.last() == trimmed(c0));
            assert(b.0@ =~= enc_cmd_of(trimmed(c0)));
        }
        if b.0.len() > STEP_MAX_BYTES - total {
            break;
        }
        total = total + b.0.len();
        keep = keep + 1;
    }
    cmds.truncate(keep);
    proof {
        assert(cmds_view(cmds@) =~= cv.take(keep as int).map_values(|c: CmdV| trimmed(c)));
    }
}

proof fn lemma_trimmed_encodable(c: CmdV)
    ensures
        encodable(trimmed(c)),
{
}

/// A clamped step fits a frame with room to spare, and the others decode from it
/// exactly the commands that the sender kept.
pub proof fn clamped_step_survives_the_wire(cmds: Seq<CmdV>, k: int, faction: u8, step: u32)
    requires
        fits_exactly(cmds, k),
    ensures
        ({
            let kept = cmds.take(k).map_values(|c: CmdV| trimmed(c));
            let m = MsgV::Step { faction, step, cmds: kept };
            &&& enc_msg_of(m).len() <= STEP_MAX_BYTES < MAX_FRAME
            &&& dec_msg_of(enc_msg_of(m)) == Some(m)
        }),
{
    let kept = cmds.take(k).map_values(|c: CmdV| trimmed(c));
    let m = MsgV::Step { faction, step, cmds: kept };
    assert forall|i: int| 0 <= i < kept.len() implies encodable(#[trigger] kept[i]) by {
        lemma_trimmed_encodable(cmds[i]);
    }
    msg_roundtrip(m);
    lemma_le_len(step as int, 4);
    assert(kept.take(kept.len() as int) =~= kept);
}

/// Only one number of commands fits a step, so everyone clamps alike.
pub proof fn clamping_is_determined(cmds: Seq<CmdV>, j: int, k: int)
    requires
        fits_exactly(cmds, j),
        fits_exactly(cmds, k),
    ensures
        j == k,
{
    if j < k {
        lemma_step_size_grows(cmds, j + 1, k);
    } else if k < j {
        lemma_step_size_grows(cmds, k + 1, j);
    }
}

proof fn lemma_step_size_grows(cmds: Seq<CmdV>, j: int, k: int)
    requires
        0 <= j <= k <= cmds.len(),
    ensures
        step_size(cmds, j) <= step_size(cmds, k),
    decreases k - j,
{
    if j < k {
        lemma_step_size_grows(cmds, j, k - 1);
        let z = cmds.take(k).map_values(|c: CmdV| trimmed(c));
        assert(z.drop_last() =~= cmds.take(k - 1).map_values(|c: CmdV| trimmed(c)));
    }
}

/// What is already small enough goes out whole.
pub proof fn small_steps_are_kept(cmds: Seq<CmdV>, k: int)
    requires
        fits_exactly(cmds, k),
        cmds.len() <= STEP_MAX_CMDS,
        forall|i: int| 0 <= i < cmds.len() ==> trimmed(#[trigger] cmds[i]) == cmds[i],
        7 + enc_cmds_of(cmds).len() <= STEP_MAX_BYTES,
    ensures
        k == cmds.len(),
        cmds.take(k).map_values(|c: CmdV| trimmed(c)) == cmds,
{
    let n = cmds.len() as int;
    assert(cmds.take(n).map_values(|c: CmdV| trimmed(c)) =~= cmds);
    if k < n {
        lemma_step_size_grows(cmds, k + 1, n);
    }
}

// ---- alliances ---------------------------------------------------------------------

/// Alliance of faction `f` in a team byte: two bits each, the first faction lowest.
pub open spec fn team_bits(b: u8, f: int) -> u8 {
    if f == 0 {
        b % 4
    } else if f == 1 {
        b / 4 % 4
    } else if f == 2 {
        b / 16 % 4
    } else {
        b / 64
    }
}

/// Packs each faction's alliance (its low two bits) into one byte.
pub fn pack_teams(alliance: &[u8; 4]) -> (r: u8)
    ensures
        r == alliance[0] % 4 + 4 * (alliance[1] % 4) + 16 * (alliance[2] % 4) + 64 * (alliance[3] % 4),
{
    alliance[0] % 4 + 4 * (alliance[1] % 4) + 16 * (alliance[2] % 4) + 64 * (alliance[3] % 4)
}

/// Each faction's alliance out of a team byte.
pub fn unpack_teams(b: u8) -> (r: [u8; 4])
    ensures
        forall|f: int| 0 <= f < 4 ==> #[trigger] r[f] == team_bits(b, f),
{
    [b % 4, b / 4 % 4, b / 16 % 4, b / 64]
}

/// Alliances survive their byte, and the free-for-all byte gives everyone their own.
pub proof fn teams_roundtrip(a: Seq<u8>, b: u8, f: int)
    requires
        a.len() == 4,
        forall|i: int| 0 <= i < 4 ==> #[trigger] a[i] < 4,
        b == a[0] % 4 + 4 * (a[1] % 4) + 16 * (a[2] % 4) + 64 * (a[3] % 4),
        0 <= f < 4,
    ensures
        team_bits(b, f) == a[f],
        team_bits(TEAMS_FFA, f) == f,
{
    assert(a[0] < 4 && a[1] < 4 && a[2] < 4 && a[3] < 4);
}

// ---- what is on the wire --------------------------------------------------------------------------------

/// Numbers go out with their least byte first.
pub proof fn the_least_byte_goes_first(v: int, n: nat)
    requires
        n > 0,
    ensures
        le(v, n).len() == n,
        le(v, n)[0] == (v % 256) as u8,
        le(v, n).skip(1) == le(v / 256, (n - 1) as nat),
    decreases n,
{
    if n > 1 {
        the_least_byte_goes_first(v / 256, (n - 1) as nat);
    }
    assert(le(v, n).skip(1) =~= le(v / 256, (n - 1) as nat));
}

/// Every message and every command starts with a tag of its own, and its fields follow in their
/// order.
pub proof fn everything_has_its_tag(m: MsgV, c: CmdV)
    ensures
        ({
            let b = enc_msg_of(m);
            match m {
                MsgV::Step { faction, step, cmds } => b.len() >= 7 && b[0] == 1 && b[1] == faction && b.subrange(2, 6)
                    == le(step as int, 4) && (cmds.len() <= 255 ==> b[6] == cmds.len()) && (cmds.len() <= 255
                    ==> b.skip(7) == enc_cmds_of(cmds)),
                MsgV::Check { faction, step, hash } => b.len() == 14 && b[0] == 2 && b[1] == faction && b.subrange(
                    2,
                    6,
                ) == le(step as int, 4) && b.subrange(6, 14) == le(hash as int, 8),
                MsgV::Welcome { faction } => b == seq![3u8, faction],
                MsgV::Start { seed, factions, ai_mask, teams } => b.len() == 12 && b[0] == 4 && b.subrange(1, 9) == le(
                    seed as int,
                    8,
                ) && b[9] == factions && b[10] == ai_mask && b[11] == teams,
            }
        }),
        ({
            let b = enc_cmd_of(c);
            match c {
                CmdV::Order { attack_move, queue, .. } => b.len() >= 13 && b[0] == 1 && (b[b.len() - 2] == 1
                    <==> attack_move) && (b[b.len() - 1] == 1 <==> queue),
                CmdV::Stop { .. } => b.len() >= 3 && b[0] == 2,
                CmdV::Train { building, unit } => b.len() == 6 && b[0] == 3 && b.subrange(1, 5) == le(
                    building as int,
                    4,
                ) && b[5] == kind_to_u8(unit),
                CmdV::Build { worker, kind, x, y, chain } => b.len() == 15 && b[0] == 4 && b.subrange(1, 5) == le(
                    worker as int,
                    4,
                ) && b[5] == kind_to_u8(kind) && b.subrange(6, 10) == le(x.bits as int, 4) && b.subrange(10, 14) == le(
                    y.bits as int,
                    4,
                ) && (b[14] == 1 <==> chain),
                CmdV::Rally { building, x, y } => b.len() == 13 && b[0] == 5 && b.subrange(1, 5) == le(
                    building as int,
                    4,
                ) && b.subrange(5, 9) == le(x.bits as int, 4) && b.subrange(9, 13) == le(y.bits as int, 4),
                CmdV::Cancel { building } => b.len() == 5 && b[0] == 6 && b.subrange(1, 5) == le(building as int, 4),
                CmdV::Surrender => b == seq![7u8],
            }
        }),
{
    lemma_layout_of_msg(m);
    lemma_layout_of_cmd(c);
}

proof fn lemma_layout_of_msg(m: MsgV)
    ensures
        ({
            let b = enc_msg_of(m);
            match m {
                MsgV::Step { faction, step, cmds } => b.len() >= 7 && b[0] == 1 && b[1] == faction && b.subrange(2, 6)
                    == le(step as int, 4) && (cmds.len() <= 255 ==> b[6] == cmds.len()) && (cmds.len() <= 255
                    ==> b.skip(7) == enc_cmds_of(cmds)),
                MsgV::Check { faction, step, hash } => b.len() == 14 && b[0] == 2 && b[1] == faction && b.subrange(
                    2,
                    6,
                ) == le(step as int, 4) && b.subrange(6, 14) == le(hash as int, 8),
                MsgV::Welcome { faction } => b == seq![3u8, faction],
                MsgV::Start { seed, factions, ai_mask, teams } => b.len() == 12 && b[0] == 4 && b.subrange(1, 9) == le(
                    seed as int,
                    8,
                ) && b[9] == factions && b[10] == ai_mask && b[11] == teams,
            }
        }),
{
    let b = enc_msg_of(m);
    match m {
        MsgV::Step { faction, step, cmds } => {
            the_least_byte_goes_first(step as int, 4);
            assert(b.subrange(2, 6) =~= le(step as int, 4));
            if cmds.len() <= 255 {
                assert(cmds.take(cmds.len() as int) =~= cmds);
                assert(b.skip(7) =~= enc_cmds_of(cmds));
            }
        },
        MsgV::Check { faction, step, hash } => {
            the_least_byte_goes_first(step as int, 4);
            the_least_byte_goes_first(hash as int, 8);
            assert(b.subrange(2, 6) =~= le(step as int, 4));
            assert(b.subrange(6, 14) =~= le(hash as int, 8));
        },
        MsgV::Welcome { faction } => {
            assert(b =~= seq![3u8, faction]);
        },
        MsgV::Start { seed, factions, ai_mask, teams } => {
            the_least_byte_goes_first(seed as int, 8);
            assert(b.subrange(1, 9) =~= le(seed as int, 8));
        },
    }
}

proof fn lemma_layout_of_cmd(c: CmdV)
    ensures
        ({
            let b = enc_cmd_of(c);
            match c {
                CmdV::Order { attack_move, queue, .. } => b.len() >= 13 && b[0] == 1 && (b[b.len() - 2] == 1
                    <==> attack_move) && (b[b.len() - 1] == 1 <==> queue),
                CmdV::Stop { .. } => b.len() >= 3 && b[0] == 2,
                CmdV::Train { building, unit } => b.len() == 6 && b[0] == 3 && b.subrange(1, 5) == le(
                    building as int,
                    4,
                ) && b[5] == kind_to_u8(unit),
                CmdV::Build { worker, kind, x, y, chain } => b.len() == 15 && b[0] == 4 && b.subrange(1, 5) == le(
                    worker as int,
                    4,
                ) && b[5] == kind_to_u8(kind) && b.subrange(6, 10) == le(x.bits as int, 4) && b.subrange(10, 14) == le(
                    y.bits as int,
                    4,
                ) && (b[14] == 1 <==> chain),
                CmdV::Rally { building, x, y } => b.len() == 13 && b[0] == 5 && b.subrange(1, 5) == le(
                    building as int,
                    4,
                ) && b.subrange(5, 9) == le(x.bits as int, 4) && b.subrange(9, 13) == le(y.bits as int, 4),
                CmdV::Cancel { building } => b.len() == 5 && b[0] == 6 && b.subrange(1, 5) == le(building as int, 4),
                CmdV::Surrender => b == seq![7u8],
            }
        }),
{
    let b = enc_cmd_of(c);
    match c {
        CmdV::Order { ids, x, y, attack_move, queue } => {
            the_least_byte_goes_first(x.bits as int, 4);
            the_least_byte_goes_first(y.bits as int, 4);
            lemma_ids_start(ids);
            let n = enc_ids_of(ids).len();
            assert(b.len() == n + 11);
            assert(b[b.len() - 2] == flag(attack_move));
            assert(b[b.len() - 1] == flag(queue));
        },
        CmdV::Stop { ids } => {
            lemma_ids_start(ids);
        },
        CmdV::Train { building, unit } => {
            the_least_byte_goes_first(building as int, 4);
            assert(b.subrange(1, 5) =~= le(building as int, 4));
        },
        CmdV::Build { worker, kind, x, y, chain } => {
            the_least_byte_goes_first(worker as int, 4);
            the_least_byte_goes_first(x.bits as int, 4);
            the_least_byte_goes_first(y.bits as int, 4);
            assert(b.subrange(1, 5) =~= le(worker as int, 4));
            assert(b.subrange(6, 10) =~= le(x.bits as int, 4));
            assert(b.subrange(10, 14) =~= le(y.bits as int, 4));
        },
        CmdV::Rally { building, x, y } => {
            the_least_byte_goes_first(building as int, 4);
            the_least_byte_goes_first(x.bits as int, 4);
            the_least_byte_goes_first(y.bits as int, 4);
            assert(b.subrange(1, 5) =~= le(building as int, 4));
            assert(b.subrange(5, 9) =~= le(x.bits as int, 4));
            assert(b.subrange(9, 13) =~= le(y.bits as int, 4));
        },
        CmdV::Cancel { building } => {
            the_least_byte_goes_first(building as int, 4);
            assert(b.subrange(1, 5) =~= le(building as int, 4));
        },
        CmdV::Surrender => {
            assert(b =~= seq![7u8]);
        },
    }
}

proof fn lemma_ids_start(ids: Seq<u32>)
    ensures
        enc_ids_of(ids).len() >= 2,
{
    let n = if ids.len() > 65_535 {
        65_535
    } else {
        ids.len() as int
    };
    the_least_byte_goes_first(n, 2);
}

} // verus!
