//! The librsync "rdiff2" delta format used by PDiff patches.
//!
//! A delta is the big-endian magic `0x72730236` followed by commands, each a
//! tag byte whose value implies the widths of its arguments:
//!
//! * `0x00` — end of delta;
//! * `0x41..=0x44` — literal: `tag - 0x40` bytes of big-endian length, then
//!   that many literal bytes;
//! * `0x45..=0x54` — copy from the basis: the tag selects the widths (1 to
//!   4 bytes each) of the big-endian offset and length.

use vstd::prelude::*;
use crate::text::{own, push_str};
use crate::numeric::{dec, u64_to_dec};

verus! {

/// Errors of delta decoding.
#[derive(Debug)]
pub enum PdiffError {
    /// The delta did not start with the rdiff2 magic.
    BadMagic,
    /// The delta's commands were truncated or inconsistent.
    Corrupt(String),
    /// An unknown command byte.
    Unimplemented(u8),
    /// A reconstructed file did not hash to the expected value.
    Sha256Mismatch { expected: String, actual: String },
}

/// What went wrong while decoding, as a value.
pub enum DeltaFault {
    BadMagic,
    Corrupt(Seq<char>),
    Unimplemented(u8),
}

/// `pdiff_error` describes the fault `f`.
pub open spec fn fault_is(e: PdiffError, f: DeltaFault) -> bool {
    match f {
        DeltaFault::BadMagic => e is BadMagic,
        DeltaFault::Corrupt(m) => e matches PdiffError::Corrupt(x) && x@ == m,
        DeltaFault::Unimplemented(t) => e matches PdiffError::Unimplemented(u) && u == t,
    }
}

/// The magic bytes that open every delta.
pub open spec fn magic() -> Seq<u8> {
    seq![0x72u8, 0x73u8, 0x02u8, 0x36u8]
}

/// `256^n`.
pub open spec fn pow256(n: nat) -> nat
    decreases n,
{
    if n == 0 {
        1
    } else {
        256 * pow256((n - 1) as nat)
    }
}

/// Bytes read as a big-endian unsigned number.
pub open spec fn be_value(s: Seq<u8>) -> nat
    decreases s.len(),
{
    if s.len() == 0 {
        0
    } else {
        be_value(s.drop_last()) * 256 + (s.last() as nat)
    }
}

/// The low `n` bytes of `v`, most significant first.
pub open spec fn be_bytes(v: nat, n: nat) -> Seq<u8>
    decreases n,
{
    if n == 0 {
        Seq::empty()
    } else {
        be_bytes(v / 256, (n - 1) as nat).push((v % 256) as u8)
    }
}

/// Decoding the commands of `delta` from `i` on, appending to `out`.
pub open spec fn run(basis: Seq<u8>, delta: Seq<u8>, i: int, out: Seq<u8>) -> Result<Seq<u8>, DeltaFault>
    decreases delta.len() - i,
{
    if i < 0 || i >= delta.len() {
        Ok(out)
    } else {
        let tag = delta[i];
        let j = i + 1;
        if tag == 0 {
            Ok(out)
        } else if 0x41 <= tag <= 0x44 {
            let n = tag - 0x40;
            if j + n > delta.len() {
                Err(DeltaFault::Corrupt("literal length truncated"@))
            } else {
                let len = be_value(delta.subrange(j, j + n));
                let k = j + n;
                if k + len > delta.len() {
                    Err(DeltaFault::Corrupt("literal data truncated"@))
                } else {
                    run(basis, delta, k + len, out + delta.subrange(k, k + len))
                }
            }
        } else if 0x45 <= tag <= 0x54 {
            let idx = tag - 0x45;
            let wl = idx / 4 + 1;
            let ll = idx % 4 + 1;
            if j + wl + ll > delta.len() {
                Err(DeltaFault::Corrupt("copy args truncated"@))
            } else {
                let w = be_value(delta.subrange(j, j + wl));
                let len = be_value(delta.subrange(j + wl, j + wl + ll));
                let k = j + wl + ll;
                if w + len > usize::MAX {
                    Err(DeltaFault::Corrupt("copy overflow"@))
                } else if w + len > basis.len() {
                    Err(
                        DeltaFault::Corrupt(
                            "copy "@ + dec(w) + ".."@ + dec(w + len) + " beyond basis length "@
                                + dec(basis.len()),
                        ),
                    )
                } else {
                    run(basis, delta, k, out + basis.subrange(w as int, (w + len) as int))
                }
            }
        } else {
            Err(DeltaFault::Unimplemented(tag))
        }
    }
}

/// Applying `delta` to `basis`.
pub open spec fn apply_spec(basis: Seq<u8>, delta: Seq<u8>) -> Result<Seq<u8>, DeltaFault> {
    if delta.len() < 4 || delta.take(4) != magic() {
        Err(DeltaFault::BadMagic)
    } else {
        run(basis, delta, 4, Seq::empty())
    }
}

proof fn lemma_pow256_4()
    ensures
        pow256(1) == 256,
        pow256(2) == 65536,
        pow256(3) == 16777216,
        pow256(4) == 4294967296,
{
    reveal_with_fuel(pow256, 5);
}

/// A big-endian number of at most 4 bytes.
fn read_be(d: &[u8], lo: usize, hi: usize) -> (r: u64)
    requires
        lo <= hi <= d@.len(),
        hi - lo <= 4,
    ensures
        r == be_value(d@.subrange(lo as int, hi as int)),
        r < pow256((hi - lo) as nat),
{
    proof {
        lemma_pow256_4();
    }
    let mut v: u64 = 0;
    let mut i = lo;
    while i < hi
        invariant
            lo <= i <= hi <= d@.len(),
            hi - lo <= 4,
            v == be_value(d@.subrange(lo as int, i as int)),
            v < pow256((i - lo) as nat),
            pow256(4) == 4294967296,
            pow256((i - lo) as nat) <= pow256(4),
        decreases hi - i,
    {
        let b = d[i];
        proof {
            assert(d@.subrange(lo as int, i + 1).drop_last() =~= d@.subrange(lo as int, i as int));
            assert(pow256((i + 1 - lo) as nat) == 256 * pow256((i - lo) as nat));
            assert(v * 256 + b < pow256((i - lo) as nat) * 256) by (nonlinear_arith)
                requires
                    v < pow256((i - lo) as nat),
                    b < 256,
            ;
            if i + 1 - lo <= 3 {
                lemma_pow256_mono((i + 1 - lo) as nat, 4);
            }
        }
        v = v * 256 + b as u64;
        i = i + 1;
    }
    v
}

proof fn lemma_pow256_mono(a: nat, b: nat)
    requires
        a <= b,
    ensures
        pow256(a) <= pow256(b),
    decreases b,
{
    if a < b {
        lemma_pow256_mono(a, (b - 1) as nat);
    }
}

fn corrupt(msg: &str) -> (e: PdiffError)
    ensures
        e matches PdiffError::Corrupt(m) && m@ == msg@,
{
    PdiffError::Corrupt(own(msg))
}

/// Applies an rdiff2 `delta` to `basis`, giving the new file.
pub fn apply_rdiff_delta(basis: &[u8], delta: &[u8]) -> (r: Result<Vec<u8>, PdiffError>)
    ensures
        match apply_spec(basis@, delta@) {
            Ok(v) => r matches Ok(x) && x@ == v,
            Err(f) => r matches Err(e) && fault_is(e, f),
        },
{
    if delta.len() < 4 || delta[0] != 0x72 || delta[1] != 0x73 || delta[2] != 0x02 || delta[3] != 0x36 {
        proof {
            if delta@.len() >= 4 {
                assert(delta@.take(4) != magic()) by {
                    if delta@[0] != 0x72 {
                        assert(delta@.take(4)[0] != magic()[0]);
                    } else if delta@[1] != 0x73 {
                        assert(delta@.take(4)[1] != magic()[1]);
                    } else if delta@[2] != 0x02 {
                        assert(delta@.take(4)[2] != magic()[2]);
                    } else {
                        assert(delta@.take(4)[3] != magic()[3]);
                    }
                }
            }
        }
        return Err(PdiffError::BadMagic);
    }
    assert(delta@.take(4) =~= magic());
    let n = delta.len();
    let mut out: Vec<u8> = Vec::new();
    let mut i: usize = 4;
    loop
        invariant
            4 <= i <= n == delta@.len(),
            apply_spec(basis@, delta@) == run(basis@, delta@, i as int, out@),
        decreases n - i,
    {
        if i >= n {
            return Ok(out);
        }
        let tag = delta[i];
        let j = i + 1;
        if tag == 0 {
            return Ok(out);
        } else if 0x41 <= tag && tag <= 0x44 {
            let w = (tag - 0x40) as usize;
            if w > n - j {
                return Err(corrupt("literal length truncated"));
            }
            let len = read_be(delta, j, j + w);
            let k = j + w;
            if len > (n - k) as u64 {
                return Err(corrupt("literal data truncated"));
            }
            let len = len as usize;
            let ghost before = out@;
            let mut m = k;
            while m < k + len
                invariant
                    k <= m <= k + len <= n == delta@.len(),
                    out@ == before + delta@.subrange(k as int, m as int),
                decreases k + len - m,
            {
                out.push(delta[m]);
                m = m + 1;
                assert(out@ =~= before + delta@.subrange(k as int, m as int));
            }
            i = k + len;
        } else if 0x45 <= tag && tag <= 0x54 {
            let idx = (tag - 0x45) as usize;
            let wl = idx / 4 + 1;
            let ll = idx % 4 + 1;
            if wl + ll > n - j {
                return Err(corrupt("copy args truncated"));
            }
            let where_ = read_be(delta, j, j + wl);
            let length = read_be(delta, j + wl, j + wl + ll);
            proof {
                lemma_pow256_4();
                lemma_pow256_mono(wl as nat, 4);
                lemma_pow256_mono(ll as nat, 4);
            }
            let where_ = where_ as usize;
            let length = length as usize;
            let k = j + wl + ll;
            let end = match where_.checked_add(length) {
                Some(e) => e,
                None => {
                    return Err(corrupt("copy overflow"));
                },
            };
            if end > basis.len() {
                let mut m = own("copy ");
                let a = u64_to_dec(where_ as u64);
                push_str(&mut m, a.as_str());
                push_str(&mut m, "..");
                let b = u64_to_dec(end as u64);
                push_str(&mut m, b.as_str());
                push_str(&mut m, " beyond basis length ");
                let c = u64_to_dec(basis.len() as u64);
                push_str(&mut m, c.as_str());
                return Err(PdiffError::Corrupt(m));
            }
            let ghost before = out@;
            let mut m = where_;
            while m < end
                invariant
                    where_ <= m <= end <= basis@.len(),
                    out@ == before + basis@.subrange(where_ as int, m as int),
                decreases end - m,
            {
                out.push(basis[m]);
                m = m + 1;
                assert(out@ =~= before + basis@.subrange(where_ as int, m as int));
            }
            i = k;
        } else {
            return Err(PdiffError::Unimplemented(tag));
        }
    }
}

// ── Encoding ──────────────────────────────────────────────────────────────────

/// One delta command.
#[derive(Debug, Clone, Copy)]
pub enum RdiffOp<'a> {
    /// Emit `data` literally.
    Literal(&'a [u8]),
    /// Copy `length` bytes from `basis[offset..]`.
    Copy(u64, u64),
}

pub enum OpView {
    Literal(Seq<u8>),
    Copy(u64, u64),
}

impl<'a> View for RdiffOp<'a> {
    type V = OpView;

    open spec fn view(&self) -> OpView {
        match self {
            RdiffOp::Literal(d) => OpView::Literal(d@),
            RdiffOp::Copy(w, l) => OpView::Copy(*w, *l),
        }
    }
}

pub open spec fn op_views<'a>(ops: Seq<RdiffOp<'a>>) -> Seq<OpView> {
    Seq::new(ops.len(), |i: int| ops[i]@)
}

/// Bytes needed to write `v` big-endian: 1 to 4.
pub open spec fn needed(v: int) -> nat {
    if v < 256 {
        1
    } else if v < 65536 {
        2
    } else if v < 16777216 {
        3
    } else {
        4
    }
}

/// The bytes of one command.
pub open spec fn op_bytes(op: OpView) -> Seq<u8> {
    match op {
        OpView::Literal(d) => {
            let n = needed(d.len() as int);
            seq![(0x40 + n) as u8] + be_bytes(d.len(), n) + d
        },
        OpView::Copy(w, l) => {
            let wl = needed((w as usize) as int);
            let ll = needed((l as usize) as int);
            seq![(0x45 + (wl - 1) * 4 + (ll - 1)) as u8] + be_bytes(w as nat, wl) + be_bytes(
                l as nat,
                ll,
            )
        },
    }
}

pub open spec fn ops_bytes(ops: Seq<OpView>) -> Seq<u8>
    decreases ops.len(),
{
    if ops.len() == 0 {
        Seq::empty()
    } else {
        op_bytes(ops[0]) + ops_bytes(ops.drop_first())
    }
}

/// The delta for `ops`: magic, commands, end marker.
pub open spec fn encode_spec(ops: Seq<OpView>) -> Seq<u8> {
    magic() + ops_bytes(ops) + seq![0u8]
}

fn bytes_needed(v: usize) -> (r: usize)
    ensures
        r == needed(v as int),
{
    if v < 256 {
        1
    } else if v < 65536 {
        2
    } else if v < 16777216 {
        3
    } else {
        4
    }
}

fn write_be(out: &mut Vec<u8>, v: u64, n: usize)
    ensures
        final(out)@ == old(out)@ + be_bytes(v as nat, n as nat),
    decreases n,
{
    if n == 0 {
        assert(old(out)@ + be_bytes(v as nat, 0) =~= old(out)@);
        return;
    }
    write_be(out, v / 256, n - 1);
    let ghost mid = out@;
    out.push((v % 256) as u8);
    assert(out@ =~= old(out)@ + be_bytes(v as nat, n as nat));
}

/// Encodes `ops` as an rdiff2 delta that [`apply_rdiff_delta`] decodes.
pub fn encode_rdiff_delta(ops: &[RdiffOp]) -> (r: Vec<u8>)
    ensures
        r@ == encode_spec(op_views(ops@)),
{
    let ghost ov = op_views(ops@);
    let mut out: Vec<u8> = Vec::new();
    out.push(0x72);
    out.push(0x73);
    out.push(0x02);
    out.push(0x36);
    assert(out@ =~= magic());
    let mut i: usize = 0;
    proof {
        assert(ov.take(0) =~= Seq::<OpView>::empty());
        lemma_ops_bytes_take(ov, 0);
    }
    while i < ops.len()
        invariant
            i <= ops@.len(),
            ov == op_views(ops@),
            out@ == magic() + ops_bytes_upto(ov, i as int),
        decreases ops.len() - i,
    {
        let ghost before = out@;
        match ops[i] {
            RdiffOp::Literal(data) => {
                let n = bytes_needed(data.len());
                out.push(0x40 + n as u8);
                write_be(&mut out, data.len() as u64, n);
                let mut k: usize = 0;
                let ghost mid = out@;
                while k < data.len()
                    invariant
                        k <= data@.len(),
                        out@ == mid + data@.take(k as int),
                    decreases data.len() - k,
                {
                    out.push(data[k]);
                    k = k + 1;
                    assert(out@ =~= mid + data@.take(k as int));
                }
                assert(data@.take(data@.len() as int) =~= data@);
            },
            RdiffOp::Copy(w, l) => {
                let wl = bytes_needed(w as usize);
                let ll = bytes_needed(l as usize);
                let tag = 0x45 + (wl as u8 - 1) * 4 + (ll as u8 - 1);
                out.push(tag);
                write_be(&mut out, w, wl);
                write_be(&mut out, l, ll);
            },
        }
        proof {
            assert(out@ =~= before + op_bytes(ov[i as int]));
            lemma_ops_bytes_step(ov, i as int);
        }
        i = i + 1;
    }
    out.push(0);
    proof {
        lemma_ops_bytes_take(ov, ov.len() as int);
        assert(ov.skip(ov.len() as int) =~= Seq::<OpView>::empty());
        assert(ops_bytes_upto(ov, ov.len() as int) =~= ops_bytes(ov));
        assert(out@ =~= encode_spec(ov));
    }
    out
}

/// The bytes of the first `i` commands.
pub open spec fn ops_bytes_upto(ops: Seq<OpView>, i: int) -> Seq<u8>
    decreases i,
{
    if i <= 0 {
        Seq::empty()
    } else {
        ops_bytes_upto(ops, i - 1) + op_bytes(ops[i - 1])
    }
}

proof fn lemma_ops_bytes_take(ops: Seq<OpView>, i: int)
    requires
        0 <= i <= ops.len(),
    ensures
        ops_bytes_upto(ops, i) + ops_bytes(ops.skip(i)) == ops_bytes(ops),
    decreases i,
{
    if i == 0 {
        assert(ops.skip(0) =~= ops);
        assert(Seq::<u8>::empty() + ops_bytes(ops) =~= ops_bytes(ops));
    } else {
        lemma_ops_bytes_take(ops, i - 1);
        assert(ops.skip(i - 1).drop_first() =~= ops.skip(i));
        assert(ops.skip(i - 1)[0] == ops[i - 1]);
        assert(ops_bytes_upto(ops, i) + ops_bytes(ops.skip(i)) =~= ops_bytes_upto(ops, i - 1)
            + ops_bytes(ops.skip(i - 1)));
    }
}

proof fn lemma_ops_bytes_step(ops: Seq<OpView>, i: int)
    requires
        0 <= i < ops.len(),
    ensures
        ops_bytes_upto(ops, i + 1) == ops_bytes_upto(ops, i) + op_bytes(ops[i]),
{
}

// ── Decoding what was encoded ─────────────────────────────────────────────────

/// What a command contributes to the output.
pub open spec fn op_output(basis: Seq<u8>, op: OpView) -> Seq<u8> {
    match op {
        OpView::Literal(d) => d,
        OpView::Copy(w, l) => basis.subrange(w as int, w + l),
    }
}

pub open spec fn ops_output(basis: Seq<u8>, ops: Seq<OpView>) -> Seq<u8>
    decreases ops.len(),
{
    if ops.len() == 0 {
        Seq::empty()
    } else {
        op_output(basis, ops[0]) + ops_output(basis, ops.drop_first())
    }
}

/// A command the format can carry: lengths and offsets below 2^32, copies
/// inside the basis.
pub open spec fn op_fits(basis: Seq<u8>, op: OpView) -> bool {
    match op {
        OpView::Literal(d) => d.len() < 0x1_0000_0000,
        OpView::Copy(w, l) => w < 0x1_0000_0000 && l < 0x1_0000_0000 && w + l <= basis.len() && w + l
            <= usize::MAX,
    }
}

proof fn lemma_be_roundtrip(v: nat, n: nat)
    requires
        v < pow256(n),
    ensures
        be_bytes(v, n).len() == n,
        be_value(be_bytes(v, n)) == v,
    decreases n,
{
    if n > 0 {
        assert(v / 256 < pow256((n - 1) as nat)) by (nonlinear_arith)
            requires
                v < 256 * pow256((n - 1) as nat),
        ;
        lemma_be_roundtrip(v / 256, (n - 1) as nat);
        let s = be_bytes(v, n);
        assert(s.drop_last() =~= be_bytes(v / 256, (n - 1) as nat));
        assert((v / 256) * 256 + v % 256 == v) by (nonlinear_arith);
    } else {
        assert(v == 0);
    }
}

proof fn lemma_needed(v: int)
    requires
        0 <= v < 0x1_0000_0000,
    ensures
        1 <= needed(v) <= 4,
        v < pow256(needed(v)),
{
    lemma_pow256_4();
}

proof fn lemma_tag_split(wl: int, ll: int)
    requires
        1 <= wl <= 4,
        1 <= ll <= 4,
    ensures
        ((wl - 1) * 4 + (ll - 1)) / 4 + 1 == wl,
        ((wl - 1) * 4 + (ll - 1)) % 4 + 1 == ll,
{
    assert(((wl - 1) * 4 + (ll - 1)) / 4 == wl - 1) by (nonlinear_arith)
        requires
            1 <= wl <= 4,
            1 <= ll <= 4,
    ;
    assert(((wl - 1) * 4 + (ll - 1)) % 4 == ll - 1) by (nonlinear_arith)
        requires
            1 <= wl <= 4,
            1 <= ll <= 4,
    ;
}

#[verifier::rlimit(40)]
proof fn lemma_run_literal(basis: Seq<u8>, pre: Seq<u8>, data: Seq<u8>, rest: Seq<u8>, out: Seq<u8>)
    requires
        data.len() < 0x1_0000_0000,
    ensures
        run(basis, pre + op_bytes(OpView::Literal(data)) + rest, pre.len() as int, out) == run(
            basis,
            pre + op_bytes(OpView::Literal(data)) + rest,
            (pre.len() + op_bytes(OpView::Literal(data)).len()) as int,
            out + data,
        ),
{
    let ob = op_bytes(OpView::Literal(data));
    let d = pre + ob + rest;
    let p = pre.len() as int;
    let n = needed(data.len() as int);
    lemma_needed(data.len() as int);
    lemma_be_roundtrip(data.len(), n);
    assert(ob.len() == 1 + n + data.len());
    assert(d[p] == (0x40 + n) as u8);
    assert(d.subrange(p + 1, p + 1 + n) =~= be_bytes(data.len(), n));
    assert(d.subrange(p + 1 + n, p + 1 + n + data.len()) =~= data);
}

#[verifier::rlimit(40)]
proof fn lemma_run_copy(basis: Seq<u8>, pre: Seq<u8>, w: u64, l: u64, rest: Seq<u8>, out: Seq<u8>)
    requires
        op_fits(basis, OpView::Copy(w, l)),
    ensures
        run(basis, pre + op_bytes(OpView::Copy(w, l)) + rest, pre.len() as int, out) == run(
            basis,
            pre + op_bytes(OpView::Copy(w, l)) + rest,
            (pre.len() + op_bytes(OpView::Copy(w, l)).len()) as int,
            out + basis.subrange(w as int, w + l),
        ),
{
    let ob = op_bytes(OpView::Copy(w, l));
    let d = pre + ob + rest;
    let p = pre.len() as int;
    let wl = needed((w as usize) as int);
    let ll = needed((l as usize) as int);
    lemma_needed(w as int);
    lemma_needed(l as int);
    lemma_be_roundtrip(w as nat, wl);
    lemma_be_roundtrip(l as nat, ll);
    lemma_tag_split(wl as int, ll as int);
    assert(ob.len() == 1 + wl + ll);
    assert(d[p] == (0x45 + (wl - 1) * 4 + (ll - 1)) as u8);
    assert(d.subrange(p + 1, p + 1 + wl) =~= be_bytes(w as nat, wl));
    assert(d.subrange(p + 1 + wl, p + 1 + wl + ll) =~= be_bytes(l as nat, ll));
}

/// Decoding one encoded command inside a longer delta.
proof fn lemma_run_op(basis: Seq<u8>, pre: Seq<u8>, op: OpView, rest: Seq<u8>, out: Seq<u8>)
    requires
        op_fits(basis, op),
    ensures
        run(basis, pre + op_bytes(op) + rest, pre.len() as int, out) == run(
            basis,
            pre + op_bytes(op) + rest,
            (pre.len() + op_bytes(op).len()) as int,
            out + op_output(basis, op),
        ),
{
    match op {
        OpView::Literal(data) => lemma_run_literal(basis, pre, data, rest, out),
        OpView::Copy(w, l) => lemma_run_copy(basis, pre, w, l, rest, out),
    }
}

proof fn lemma_run_ops(basis: Seq<u8>, pre: Seq<u8>, ops: Seq<OpView>, out: Seq<u8>)
    requires
        forall|k: int| 0 <= k < ops.len() ==> op_fits(basis, #[trigger] ops[k]),
    ensures
        run(basis, pre + ops_bytes(ops) + seq![0u8], pre.len() as int, out) == Ok::<
            Seq<u8>,
            DeltaFault,
        >(out + ops_output(basis, ops)),
    decreases ops.len(),
{
    let d = pre + ops_bytes(ops) + seq![0u8];
    if ops.len() == 0 {
        assert(d[pre.len() as int] == 0u8);
        assert(out + ops_output(basis, ops) =~= out);
    } else {
        let ob = op_bytes(ops[0]);
        let rest = ops_bytes(ops.drop_first()) + seq![0u8];
        assert(d =~= pre + ob + rest);
        lemma_run_op(basis, pre, ops[0], rest, out);
        assert forall|k: int| 0 <= k < ops.drop_first().len() implies op_fits(
            basis,
            #[trigger] ops.drop_first()[k],
        ) by {
            assert(ops.drop_first()[k] == ops[k + 1]);
        }
        lemma_run_ops(basis, pre + ob, ops.drop_first(), out + op_output(basis, ops[0]));
        assert(pre + ob + ops_bytes(ops.drop_first()) + seq![0u8] =~= d);
        assert(out + op_output(basis, ops[0]) + ops_output(basis, ops.drop_first()) =~= out
            + ops_output(basis, ops));
    }
}

/// Encoding then applying gives the commands' output: every command whose
/// lengths and offsets fit the format, with copies inside the basis, is
/// decoded as written.
pub proof fn lemma_encode_apply(basis: Seq<u8>, ops: Seq<OpView>)
    requires
        forall|k: int| 0 <= k < ops.len() ==> op_fits(basis, #[trigger] ops[k]),
    ensures
        apply_spec(basis, encode_spec(ops)) == Ok::<Seq<u8>, DeltaFault>(ops_output(basis, ops)),
{
    let e = encode_spec(ops);
    assert(e.take(4) =~= magic());
    lemma_run_ops(basis, magic(), ops, Seq::empty());
    assert(Seq::<u8>::empty() + ops_output(basis, ops) =~= ops_output(basis, ops));
}

// ── Messages ──────────────────────────────────────────────────────────────────

/// A hexadecimal digit, lowercase.
pub open spec fn hex_digit(d: int) -> char {
    if d < 10 {
        (('0' as int) + d) as char
    } else {
        (('a' as int) + d - 10) as char
    }
}

/// A byte as `{:#x}` writes it: `0x` and its digits without leading zeros.
pub open spec fn alt_hex(b: u8) -> Seq<char> {
    "0x"@ + if b < 16 {
        seq![hex_digit(b as int)]
    } else {
        seq![hex_digit((b / 16) as int), hex_digit((b % 16) as int)]
    }
}

pub open spec fn pdiff_error_text(e: PdiffError) -> Seq<char> {
    match e {
        PdiffError::BadMagic => "invalid rdiff delta magic"@,
        PdiffError::Corrupt(m) => "corrupt rdiff delta: "@ + m@,
        PdiffError::Unimplemented(b) => "unimplemented rdiff command byte "@ + alt_hex(b),
        PdiffError::Sha256Mismatch { expected, actual } => "sha256 mismatch: expected "@ + expected@
            + ", got "@ + actual@,
    }
}

pub fn hex_char(d: u8) -> (c: char)
    requires
        d < 16,
    ensures
        c == hex_digit(d as int),
{
    let r = if d == 0 { '0' } else if d == 1 { '1' } else if d == 2 { '2' } else if d == 3 { '3' }
    else if d == 4 { '4' } else if d == 5 { '5' } else if d == 6 { '6' } else if d == 7 { '7' }
    else if d == 8 { '8' } else if d == 9 { '9' } else if d == 10 { 'a' } else if d == 11 { 'b' }
    else if d == 12 { 'c' } else if d == 13 { 'd' } else if d == 14 { 'e' } else { 'f' };
    r
}

impl PdiffError {
    /// The error's message.
    pub fn to_string(&self) -> (r: String)
        ensures
            r@ == pdiff_error_text(*self),
    {
        match self {
            PdiffError::BadMagic => own("invalid rdiff delta magic"),
            PdiffError::Corrupt(m) => {
                let mut s = own("corrupt rdiff delta: ");
                push_str(&mut s, m.as_str());
                s
            },
            PdiffError::Unimplemented(b) => {
                let mut s = own("unimplemented rdiff command byte ");
                let ghost start = s@;
                push_str(&mut s, "0x");
                if *b < 16 {
                    crate::text::push_char(&mut s, hex_char(*b));
                } else {
                    crate::text::push_char(&mut s, hex_char(*b / 16));
                    crate::text::push_char(&mut s, hex_char(*b % 16));
                }
                proof {
                    assert(s@ =~= start + alt_hex(*b));
                }
                s
            },
            PdiffError::Sha256Mismatch { expected, actual } => {
                let mut s = own("sha256 mismatch: expected ");
                push_str(&mut s, expected.as_str());
                push_str(&mut s, ", got ");
                push_str(&mut s, actual.as_str());
                s
            },
        }
    }
}


proof fn lemma_run_no_bad_magic(basis: Seq<u8>, delta: Seq<u8>, i: int, out: Seq<u8>)
    ensures
        !(run(basis, delta, i, out) matches Err(DeltaFault::BadMagic)),
    decreases delta.len() - i,
{
    if 0 <= i < delta.len() {
        let tag = delta[i];
        let j = i + 1;
        if 0x41 <= tag <= 0x44 {
            let n = tag - 0x40;
            if j + n <= delta.len() {
                let len = be_value(delta.subrange(j, j + n));
                let k = j + n;
                if k + len <= delta.len() {
                    lemma_run_no_bad_magic(basis, delta, k + len, out + delta.subrange(k, k + len));
                }
            }
        } else if 0x45 <= tag <= 0x54 {
            let idx = tag - 0x45;
            let wl = idx / 4 + 1;
            let ll = idx % 4 + 1;
            if j + wl + ll <= delta.len() {
                let w = be_value(delta.subrange(j, j + wl));
                let len = be_value(delta.subrange(j + wl, j + wl + ll));
                let k = j + wl + ll;
                if w + len <= basis.len() && w + len <= usize::MAX {
                    lemma_run_no_bad_magic(basis, delta, k, out + basis.subrange(w as int, (w + len) as int));
                }
            }
        }
    }
}

/// The faults of a delta: it is refused as `BadMagic` exactly when it is
/// shorter than four bytes or does not start with the magic; a command byte
/// that is no command is `Unimplemented` with that byte; a copy reaching past
/// the end of the basis is `Corrupt`.
pub proof fn lemma_delta_faults(basis: Seq<u8>, delta: Seq<u8>, i: int, out: Seq<u8>)
    ensures
        (apply_spec(basis, delta) matches Err(DeltaFault::BadMagic)) <==> (delta.len() < 4 || delta.take(4) != magic()),
        0 <= i < delta.len() && !(delta[i] == 0 || 0x41 <= delta[i] <= 0x54) ==> run(basis, delta, i, out) == Err::<
            Seq<u8>,
            DeltaFault,
        >(DeltaFault::Unimplemented(delta[i])),
        ({
            let tag = delta[i];
            let idx = tag - 0x45;
            let wl = idx / 4 + 1;
            let ll = idx % 4 + 1;
            &&& 0 <= i < delta.len()
            &&& 0x45 <= tag <= 0x54
            &&& i + 1 + wl + ll <= delta.len()
            &&& be_value(delta.subrange(i + 1, i + 1 + wl)) + be_value(delta.subrange(i + 1 + wl, i + 1 + wl + ll))
                > basis.len()
        }) ==> run(basis, delta, i, out) matches Err(DeltaFault::Corrupt(_)),
{
    if delta.len() >= 4 && delta.take(4) == magic() {
        lemma_run_no_bad_magic(basis, delta, 4, Seq::empty());
    }
}

} // verus!
