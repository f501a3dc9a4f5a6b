//! Byte-exact persistence of the orchestrator: frames and substate layers
//! serialize into a flat byte string and reconstruct from it.
//!
//! Everything is built from two wire forms: a little-endian 64-bit
//! integer, and a length-prefixed byte string. A reader's contract says
//! that on a buffer continuing with the encoding of a value it yields
//! exactly that value and stops exactly behind it; `restore` additionally
//! re-encodes what it parsed and accepts only a byte-identical buffer, so
//! a stored blob and its reconstruction determine each other.

use vstd::prelude::*;
use crate::addr::Address;
use crate::addr::ADDRESS_LEN;
use crate::bridge::Config;
use crate::bridge::Context;
use crate::bridge::Executor;
use crate::substate::Backend;
use crate::substate::ExecutorState;
use crate::bytes::extend_bytes;
use crate::machine::CreateReason;
use crate::machine::Frame;
use crate::machine::Machine;
use crate::substate::AccountDiff;
use crate::substate::Layer;
use crate::substate::LayerEntry;
use crate::substate::LogEntry;

verus! {

/// 256 to the n-th power.
pub open spec fn pow256(n: nat) -> nat
    decreases n,
{
    if n == 0 {
        1
    } else {
        256 * pow256((n - 1) as nat)
    }
}

/// The n low-order base-256 digits of a value, least significant first.
pub open spec fn le_bytes(v: nat, n: nat) -> Seq<u8>
    decreases n,
{
    if n == 0 {
        Seq::empty()
    } else {
        seq![(v % 256) as u8] + le_bytes(v / 256, (n - 1) as nat)
    }
}

/// The value a little-endian digit string denotes.
pub open spec fn le_val(s: Seq<u8>) -> nat
    decreases s.len(),
{
    if s.len() == 0 {
        0
    } else {
        (s[0] + 256 * le_val(s.drop_first())) as nat
    }
}

/// The wire form of a 64-bit integer.
pub open spec fn enc_u64(v: u64) -> Seq<u8> {
    le_bytes(v as nat, 8)
}

/// The wire form of a byte string: its length, then its bytes.
pub open spec fn enc_bytes(s: Seq<u8>) -> Seq<u8> {
    le_bytes(s.len(), 8) + s
}

/// Digit strings denote values below the base power of their length.
pub proof fn lemma_le_val_bound(s: Seq<u8>)
    ensures
        le_val(s) < pow256(s.len()),
    decreases s.len(),
{
    if s.len() > 0 {
        lemma_le_val_bound(s.drop_first());
    }
}

/// Encoding then decoding a bounded value gives it back.
pub proof fn lemma_le_roundtrip(v: nat, n: nat)
    requires
        v < pow256(n),
    ensures
        le_val(le_bytes(v, n)) == v,
        le_bytes(v, n).len() == n,
    decreases n,
{
    if n > 0 {
        assert(v / 256 < pow256((n - 1) as nat)) by {
            assert(pow256(n) == 256 * pow256((n - 1) as nat));
        }
        lemma_le_roundtrip(v / 256, (n - 1) as nat);
        let s = le_bytes(v, n);
        assert(s.drop_first() =~= le_bytes(v / 256, (n - 1) as nat));
        assert(s[0] == v % 256);
        assert(le_val(s) == v % 256 + 256 * (v / 256));
    }
}

/// Decoding then re-encoding a digit string of the right length gives
/// it back.
pub proof fn lemma_le_bytes_of_val(s: Seq<u8>, n: nat)
    requires
        s.len() == n,
    ensures
        le_bytes(le_val(s), n) == s,
    decreases n,
{
    if n > 0 {
        lemma_le_bytes_of_val(s.drop_first(), (n - 1) as nat);
        assert(le_val(s) == (s[0] + 256 * le_val(s.drop_first())) as nat);
        assert(le_val(s) % 256 == s[0] && le_val(s) / 256 == le_val(s.drop_first())) by {
            assert((s[0] + 256 * le_val(s.drop_first())) as nat % 256 == s[0]) by (nonlinear_arith)
                requires s[0] < 256;
            assert((s[0] + 256 * le_val(s.drop_first())) as nat / 256 == le_val(s.drop_first()))
                by (nonlinear_arith)
                requires s[0] < 256;
        }
        assert(le_bytes(le_val(s), n) =~= seq![(le_val(s) % 256) as u8] + le_bytes(
            le_val(s) / 256,
            (n - 1) as nat,
        ));
        assert(le_bytes(le_val(s), n) =~= s);
    } else {
        assert(le_bytes(le_val(s), 0) =~= s);
    }
}

/// A digit string is as long as asked.
pub proof fn lemma_le_bytes_len(v: nat, n: nat)
    ensures
        le_bytes(v, n).len() == n,
    decreases n,
{
    if n > 0 {
        lemma_le_bytes_len(v / 256, (n - 1) as nat);
    }
}

/// Appending a digit raises the denoted value by digit times base power.
pub proof fn lemma_le_val_push(s: Seq<u8>, b: u8)
    ensures
        le_val(s.push(b)) == le_val(s) + b * pow256(s.len()),
    decreases s.len(),
{
    if s.len() == 0 {
        assert(s.push(b) =~= seq![b]);
        assert(seq![b].drop_first() =~= Seq::<u8>::empty());
        assert(le_val(Seq::<u8>::empty()) == 0);
        assert(le_val(s) == 0);
        assert(le_val(seq![b]) == b);
        assert(pow256(0) == 1);
    } else {
        lemma_le_val_push(s.drop_first(), b);
        assert(s.push(b).drop_first() =~= s.drop_first().push(b));
        assert(le_val(s.push(b)) == s[0] + 256 * le_val(s.drop_first().push(b)));
        assert(256 * (le_val(s.drop_first()) + b * pow256((s.len() - 1) as nat)) == 256 * le_val(
            s.drop_first(),
        ) + b * pow256(s.len())) by {
            assert(pow256(s.len()) == 256 * pow256((s.len() - 1) as nat));
            assert(256 * (b * pow256((s.len() - 1) as nat)) == b * (256 * pow256(
                (s.len() - 1) as nat,
            ))) by (nonlinear_arith);
        }
    }
}

/// After a recognized piece, the rest of the buffer begins where the
/// piece ends.
pub proof fn lemma_skip_concat(buf: Seq<u8>, pos: int, a: Seq<u8>, rest: Seq<u8>)
    requires
        0 <= pos <= buf.len(),
        buf.skip(pos) == a + rest,
    ensures
        pos + a.len() <= buf.len(),
        buf.skip(pos + a.len()) == rest,
{
    assert(buf.skip(pos).len() == buf.len() - pos);
    assert(buf.skip(pos + a.len() as int) =~= buf.skip(pos).skip(a.len() as int));
    assert(buf.skip(pos).skip(a.len() as int) =~= rest);
}

/// Appends the wire form of an integer.
pub fn write_u64(out: &mut Vec<u8>, v: u64)
    ensures
        final(out)@ == old(out)@ + enc_u64(v),
{
    let mut x: u64 = v;
    let mut i: usize = 0;
    while i < 8
        invariant
            i <= 8,
            out@ + le_bytes(x as nat, (8 - i) as nat) == old(out)@ + enc_u64(v),
        decreases 8 - i,
    {
        proof {
            assert(le_bytes(x as nat, (8 - i) as nat) =~= seq![(x % 256) as u8] + le_bytes(
                (x / 256) as nat,
                (8 - i - 1) as nat,
            ));
            assert(out@.push((x % 256) as u8) + le_bytes((x / 256) as nat, (8 - i - 1) as nat)
                =~= out@ + le_bytes(x as nat, (8 - i) as nat));
        }
        out.push((x % 256) as u8);
        x = x / 256;
        i += 1;
    }
    proof {
        assert(le_bytes(x as nat, 0) =~= Seq::<u8>::empty());
        assert(out@ + Seq::<u8>::empty() =~= out@);
    }
}

/// Appends the wire form of a byte string.
pub fn write_bytes(out: &mut Vec<u8>, b: &Vec<u8>)
    ensures
        final(out)@ == old(out)@ + enc_bytes(b@),
        len_ok(b@.len()),
{
    let n = b.len();
    write_u64(out, n as u64);
    extend_bytes(out, b);
    proof {
        assert(n as u64 as nat == b@.len());
        assert((old(out)@ + enc_u64(n as u64)) + b@ =~= old(out)@ + enc_bytes(b@));
        assert(len_ok(b@.len())) by {
            reveal_with_fuel(pow256, 9);
        }
    }
}

/// Reads an integer, when the buffer continues with one's wire form.
pub fn read_u64(buf: &Vec<u8>, pos: &mut usize) -> (r: Option<u64>)
    requires
        *old(pos) <= buf@.len(),
    ensures
        *old(pos) <= *final(pos) <= buf@.len(),
        r is None ==> *final(pos) == *old(pos),
        r matches Some(v) ==> *final(pos) == *old(pos) + 8 && buf@.subrange(
            *old(pos) as int,
            *final(pos) as int,
        ) == enc_u64(v),
        forall|v: u64, rest: Seq<u8>|
            buf@.skip(*old(pos) as int) == #[trigger] (enc_u64(v) + rest) ==> r == Some(v)
                && *final(pos) == *old(pos) + 8,
{
    if buf.len() - *pos < 8 {
        proof {
            assert forall|v: u64, rest: Seq<u8>|
                buf@.skip(*old(pos) as int) == #[trigger] (enc_u64(v) + rest) implies false by {
                lemma_le_bytes_len(v as nat, 8);
                assert(buf@.skip(*old(pos) as int).len() >= 8);
            }
        }
        return None;
    }
    let start = *pos;
    let mut acc: u64 = 0;
    let mut mul: u64 = 1;
    let mut i: usize = 0;
    proof {
        reveal_with_fuel(pow256, 9);
        assert(buf@.subrange(start as int, start as int) =~= Seq::<u8>::empty());
    }
    while i < 8
        invariant
            i <= 8,
            start + 8 <= buf@.len(),
            buf@.len() <= usize::MAX,
            acc as nat == le_val(buf@.subrange(start as int, start as int + i)),
            (acc as nat) < pow256(i as nat),
            i < 8 ==> mul as nat == pow256(i as nat),
        decreases 8 - i,
    {
        let b = buf[start + i];
        proof {
            reveal_with_fuel(pow256, 9);
            let pfx = buf@.subrange(start as int, start as int + i);
            lemma_le_val_push(pfx, b);
            assert(pfx.push(b) =~= buf@.subrange(start as int, start as int + i + 1));
            assert(acc as nat + b as nat * pow256(i as nat) < pow256((i + 1) as nat)) by {
                assert(b as nat * pow256(i as nat) <= 255 * pow256(i as nat)) by (nonlinear_arith)
                    requires b as nat <= 255, pow256(i as nat) >= 0;
                assert(pow256((i + 1) as nat) == 256 * pow256(i as nat));
            }
            lemma_pow256_mono((i + 1) as nat, 8);
            assert(b as nat * mul as nat == b as nat * pow256(i as nat));
        }
        acc = acc + (b as u64) * mul;
        if i < 7 {
            proof {
                reveal_with_fuel(pow256, 9);
                assert(mul as nat * 256 == pow256((i + 1) as nat));
                lemma_pow256_mono((i + 1) as nat, 7);
            }
            mul = mul * 256;
        }
        i += 1;
    }
    *pos = start + 8;
    proof {
        assert(buf@.subrange(start as int, start as int + 8) =~= buf@.subrange(
            start as int,
            start as int + 8,
        ));
        lemma_le_bytes_of_val(buf@.subrange(start as int, start as int + 8), 8);
        assert(enc_u64(acc) == buf@.subrange(start as int, start as int + 8)) by {
            assert(acc as nat == le_val(buf@.subrange(start as int, start as int + 8)));
        }
        assert forall|v: u64, rest: Seq<u8>|
            buf@.skip(start as int) == #[trigger] (enc_u64(v) + rest) implies Some(acc)
            == Some::<u64>(v) by {
            reveal_with_fuel(pow256, 9);
            lemma_le_bytes_len(v as nat, 8);
            assert(buf@.subrange(start as int, start as int + 8) =~= enc_u64(v));
            lemma_le_roundtrip(v as nat, 8);
        }
    }
    Some(acc)
}

/// Powers of the base grow with the exponent.
pub proof fn lemma_pow256_mono(a: nat, b: nat)
    requires
        a <= b,
    ensures
        pow256(a) <= pow256(b),
    decreases b,
{
    if a < b {
        lemma_pow256_mono(a, (b - 1) as nat);
        lemma_pow256_pos((b - 1) as nat);
    }
}

/// Powers of the base are positive.
pub proof fn lemma_pow256_pos(n: nat)
    ensures
        pow256(n) >= 1,
    decreases n,
{
    if n > 0 {
        lemma_pow256_pos((n - 1) as nat);
    }
}

/// Reads a byte string, when the buffer continues with one's wire form.
pub fn read_bytes(buf: &Vec<u8>, pos: &mut usize) -> (r: Option<Vec<u8>>)
    requires
        *old(pos) <= buf@.len(),
    ensures
        *old(pos) <= *final(pos) <= buf@.len(),
        r matches Some(v) ==> *final(pos) == *old(pos) + 8 + v@.len() && buf@.subrange(
            *old(pos) as int,
            *final(pos) as int,
        ) == enc_bytes(v@),
        forall|s: Seq<u8>, rest: Seq<u8>|
            s.len() < pow256(8) && buf@.skip(*old(pos) as int) == #[trigger] (enc_bytes(s) + rest)
                ==> r is Some && r.unwrap()@ == s && *final(pos) == *old(pos) + 8 + s.len()
                && buf@.skip(*final(pos) as int) == rest,
{
    let ghost p0 = *pos;
    let n = match read_u64(buf, pos) {
        Some(n) => n,
        None => {
            proof {
                assert forall|s: Seq<u8>, rest: Seq<u8>|
                    s.len() < pow256(8) && buf@.skip(p0 as int) == #[trigger] (enc_bytes(s)
                        + rest) implies false by {
                    reveal_with_fuel(pow256, 9);
                    assert(le_bytes(s.len(), 8) =~= le_bytes(s.len() as u64 as nat, 8));
                    assert(enc_bytes(s) + rest =~= enc_u64(s.len() as u64) + (s + rest));
                }
            }
            return None;
        },
    };
    proof {
        assert forall|s: Seq<u8>, rest: Seq<u8>|
            s.len() < pow256(8) && buf@.skip(p0 as int) == #[trigger] (enc_bytes(s) + rest)
            implies n == s.len() && *pos == p0 + 8 by {
            reveal_with_fuel(pow256, 9);
            assert(le_bytes(s.len(), 8) =~= le_bytes(s.len() as u64 as nat, 8));
            assert(enc_bytes(s) + rest =~= enc_u64(s.len() as u64) + (s + rest));
        }
    }
    if n > (buf.len() - *pos) as u64 {
        proof {
            assert forall|s: Seq<u8>, rest: Seq<u8>|
                s.len() < pow256(8) && buf@.skip(p0 as int) == #[trigger] (enc_bytes(s) + rest)
                implies false by {
                reveal_with_fuel(pow256, 9);
                assert(le_bytes(s.len(), 8) =~= le_bytes(s.len() as u64 as nat, 8));
                assert(enc_bytes(s) + rest =~= enc_u64(s.len() as u64) + (s + rest));
                lemma_skip_concat(buf@, p0 as int, enc_u64(s.len() as u64), s + rest);
                lemma_le_bytes_len(s.len() as u64 as nat, 8);
                assert(buf@.skip((p0 + 8) as int).len() >= s.len());
            }
        }
        return None;
    }
    let n_us = n as usize;
    let start = *pos;
    let mut v: Vec<u8> = Vec::new();
    let mut i: usize = 0;
    while i < n_us
        invariant
            i <= n_us,
            start + n_us <= buf@.len(),
            buf@.len() <= usize::MAX,
            v@ == buf@.subrange(start as int, start as int + i),
        decreases n_us - i,
    {
        proof {
            assert(buf@.subrange(start as int, start as int + i + 1) =~= buf@.subrange(
                start as int,
                start as int + i,
            ).push(buf@[start as int + i]));
        }
        v.push(buf[start + i]);
        i += 1;
    }
    *pos = start + n_us;
    proof {
        assert(buf@.subrange(p0 as int, *pos as int) =~= buf@.subrange(p0 as int, start as int)
            + buf@.subrange(start as int, *pos as int));
        assert(n_us as u64 == n);
        assert(le_bytes(v@.len(), 8) =~= le_bytes(n as nat, 8));
        assert(buf@.subrange(p0 as int, *pos as int) =~= enc_bytes(v@));
        assert forall|s: Seq<u8>, rest: Seq<u8>|
            s.len() < pow256(8) && buf@.skip(p0 as int) == #[trigger] (enc_bytes(s) + rest)
            implies v@ == s && *pos == p0 + 8 + s.len() && buf@.skip(*pos as int) == rest by {
            reveal_with_fuel(pow256, 9);
            assert(le_bytes(s.len(), 8) =~= le_bytes(s.len() as u64 as nat, 8));
            assert(enc_bytes(s) + rest =~= enc_u64(s.len() as u64) + (s + rest));
            lemma_skip_concat(buf@, p0 as int, enc_u64(s.len() as u64), s + rest);
            lemma_le_bytes_len(s.len() as u64 as nat, 8);
            assert(buf@.skip((p0 + 8) as int) == s + rest);
            assert(v@ =~= s) by {
                assert(buf@.subrange(start as int, start as int + n_us as int) =~= (s
                    + rest).subrange(0, s.len() as int));
                assert((s + rest).subrange(0, s.len() as int) =~= s);
            }
            lemma_skip_concat(buf@, (p0 + 8) as int, s, rest);
        }
    }
    Some(v)
}


/// Byte-string wire forms never exceed the integer range.
pub open spec fn len_ok(n: nat) -> bool {
    n < pow256(8)
}

/// The wire form of an optional integer: a tag, then the value or zero.
pub open spec fn enc_opt_u64(o: Option<u64>) -> Seq<u8> {
    match o {
        None => enc_u64(0) + enc_u64(0),
        Some(v) => enc_u64(1) + enc_u64(v),
    }
}

/// The wire form of a flag.
pub open spec fn enc_bool(b: bool) -> Seq<u8> {
    if b {
        enc_u64(1)
    } else {
        enc_u64(0)
    }
}

/// The wire form of optional bytes: a tag, then the bytes or none.
pub open spec fn enc_opt_bytes(o: Option<Vec<u8>>) -> Seq<u8> {
    match o {
        None => enc_u64(0) + enc_bytes(Seq::empty()),
        Some(c) => enc_u64(1) + enc_bytes(c@),
    }
}

/// The wire form of one storage write.
pub open spec fn enc_pair(p: (u64, u64)) -> Seq<u8> {
    enc_u64(p.0) + enc_u64(p.1)
}

/// The wire form of a storage write list.
pub open spec fn enc_pairs(ps: Seq<(u64, u64)>) -> Seq<u8>
    decreases ps.len(),
{
    if ps.len() == 0 {
        Seq::empty()
    } else {
        enc_pair(ps[0]) + enc_pairs(ps.drop_first())
    }
}

/// The wire form of a frame's provenance.
pub open spec fn enc_kind(k: CreateReason) -> Seq<u8> {
    match k {
        CreateReason::Call => enc_u64(0) + enc_bytes(Seq::empty()),
        CreateReason::Create(a) => enc_u64(1) + enc_bytes(a@),
    }
}

/// The wire form of an execution context.
pub open spec fn enc_context(c: Context) -> Seq<u8> {
    enc_bytes(c.address@) + enc_bytes(c.caller@) + enc_u64(c.apparent_value)
}

/// The wire form of one frame.
pub open spec fn enc_frame(f: Frame) -> Seq<u8> {
    enc_kind(f.kind) + enc_context(f.context) + enc_bytes(f.code@) + enc_bytes(f.input@)
        + enc_bytes(f.micro@) + enc_bytes(f.ret@)
}

/// The wire form of the frame stack, bottom first.
pub open spec fn enc_frames(fs: Seq<Frame>) -> Seq<u8>
    decreases fs.len(),
{
    if fs.len() == 0 {
        Seq::empty()
    } else {
        enc_frame(fs[0]) + enc_frames(fs.drop_first())
    }
}

/// The wire form of one recorded diff.
pub open spec fn enc_diff(d: AccountDiff) -> Seq<u8> {
    enc_opt_u64(d.nonce) + enc_opt_u64(d.balance) + enc_opt_bytes(d.code) + enc_u64(
        d.storage@.len() as u64,
    ) + enc_pairs(d.storage@) + enc_bool(d.reset_storage) + enc_bool(d.deleted)
}

/// The wire form of one layer entry.
pub open spec fn enc_entry(e: LayerEntry) -> Seq<u8> {
    enc_bytes(e.address@) + enc_diff(e.diff)
}

/// The wire form of an entry list.
pub open spec fn enc_entries(es: Seq<LayerEntry>) -> Seq<u8>
    decreases es.len(),
{
    if es.len() == 0 {
        Seq::empty()
    } else {
        enc_entry(es[0]) + enc_entries(es.drop_first())
    }
}

/// The wire form of a topic list.
pub open spec fn enc_topics(ts: Seq<Vec<u8>>) -> Seq<u8>
    decreases ts.len(),
{
    if ts.len() == 0 {
        Seq::empty()
    } else {
        enc_bytes(ts[0]@) + enc_topics(ts.drop_first())
    }
}

/// The wire form of one log record.
pub open spec fn enc_log(l: LogEntry) -> Seq<u8> {
    enc_bytes(l.address@) + enc_u64(l.topics@.len() as u64) + enc_topics(l.topics@) + enc_bytes(
        l.data@,
    )
}

/// The wire form of a log list.
pub open spec fn enc_logs(ls: Seq<LogEntry>) -> Seq<u8>
    decreases ls.len(),
{
    if ls.len() == 0 {
        Seq::empty()
    } else {
        enc_log(ls[0]) + enc_logs(ls.drop_first())
    }
}

/// The wire form of one layer.
pub open spec fn enc_layer(l: Layer) -> Seq<u8> {
    enc_u64(l.entries@.len() as u64) + enc_entries(l.entries@) + enc_u64(l.logs@.len() as u64)
        + enc_logs(l.logs@)
}

/// The wire form of the layer stack, bottom first.
pub open spec fn enc_layers(ls: Seq<Layer>) -> Seq<u8>
    decreases ls.len(),
{
    if ls.len() == 0 {
        Seq::empty()
    } else {
        enc_layer(ls[0]) + enc_layers(ls.drop_first())
    }
}

/// The wire form of a whole suspended machine: frames, then layers.
pub open spec fn enc_machine(fs: Seq<Frame>, ls: Seq<Layer>) -> Seq<u8> {
    enc_u64(fs.len() as u64) + enc_frames(fs) + enc_u64(ls.len() as u64) + enc_layers(ls)
}

/// Every list in a diff fits the wire integer.
pub open spec fn diff_encodable(d: AccountDiff) -> bool {
    &&& len_ok(d.storage@.len())
    &&& (d.code matches Some(c) ==> len_ok(c@.len()))
}

/// Every list in an entry fits the wire integer.
pub open spec fn entry_encodable(e: LayerEntry) -> bool {
    &&& len_ok(e.address@.len())
    &&& diff_encodable(e.diff)
}

/// Every list in a log record fits the wire integer.
pub open spec fn log_encodable(l: LogEntry) -> bool {
    &&& len_ok(l.address@.len())
    &&& len_ok(l.topics@.len())
    &&& len_ok(l.data@.len())
    &&& forall|i: int| 0 <= i < l.topics@.len() ==> len_ok((#[trigger] l.topics@[i])@.len())
}

/// Every list in a frame fits the wire integer.
pub open spec fn frame_encodable(f: Frame) -> bool {
    &&& match f.kind {
        CreateReason::Call => true,
        CreateReason::Create(a) => len_ok(a@.len()),
    }
    &&& len_ok(f.context.address@.len())
    &&& len_ok(f.context.caller@.len())
    &&& len_ok(f.code@.len())
    &&& len_ok(f.input@.len())
    &&& len_ok(f.micro@.len())
    &&& len_ok(f.ret@.len())
}

/// Every list in a layer fits the wire integer.
pub open spec fn layer_encodable(l: Layer) -> bool {
    &&& len_ok(l.entries@.len())
    &&& len_ok(l.logs@.len())
    &&& forall|i: int| 0 <= i < l.entries@.len() ==> entry_encodable(#[trigger] l.entries@[i])
    &&& forall|i: int| 0 <= i < l.logs@.len() ==> log_encodable(#[trigger] l.logs@[i])
}

/// Every list of a suspended machine fits the wire integer.
pub open spec fn machine_encodable(fs: Seq<Frame>, ls: Seq<Layer>) -> bool {
    &&& len_ok(fs.len())
    &&& len_ok(ls.len())
    &&& forall|i: int| 0 <= i < fs.len() ==> frame_encodable(#[trigger] fs[i])
    &&& forall|i: int| 0 <= i < ls.len() ==> layer_encodable(#[trigger] ls[i])
}

/// Appending a frame appends its wire form.
pub proof fn lemma_enc_frames_push(s: Seq<Frame>, x: Frame)
    ensures
        enc_frames(s.push(x)) == enc_frames(s) + enc_frame(x),
    decreases s.len(),
{
    if s.len() == 0 {
        assert(s.push(x) =~= seq![x]);
        assert(seq![x].drop_first() =~= Seq::<Frame>::empty());
        assert(enc_frames(seq![x].drop_first()) =~= Seq::<u8>::empty());
        assert(enc_frames(s.push(x)) =~= enc_frame(x));
        assert(enc_frames(s) + enc_frame(x) =~= enc_frame(x));
    } else {
        lemma_enc_frames_push(s.drop_first(), x);
        assert(s.push(x).drop_first() =~= s.drop_first().push(x));
        assert(s.push(x)[0] == s[0]);
        assert((enc_frame(s[0]) + enc_frames(s.drop_first())) + enc_frame(x) =~= enc_frame(s[0])
            + (enc_frames(s.drop_first()) + enc_frame(x)));
    }
}

/// Appending a storage write appends its wire form.
pub proof fn lemma_enc_pairs_push(s: Seq<(u64, u64)>, x: (u64, u64))
    ensures
        enc_pairs(s.push(x)) == enc_pairs(s) + enc_pair(x),
    decreases s.len(),
{
    if s.len() == 0 {
        assert(s.push(x) =~= seq![x]);
        assert(seq![x].drop_first() =~= Seq::<(u64, u64)>::empty());
        assert(enc_pairs(seq![x].drop_first()) =~= Seq::<u8>::empty());
        assert(enc_pairs(s.push(x)) =~= enc_pair(x));
        assert(enc_pairs(s) + enc_pair(x) =~= enc_pair(x));
    } else {
        lemma_enc_pairs_push(s.drop_first(), x);
        assert(s.push(x).drop_first() =~= s.drop_first().push(x));
        assert(s.push(x)[0] == s[0]);
        assert((enc_pair(s[0]) + enc_pairs(s.drop_first())) + enc_pair(x) =~= enc_pair(s[0])
            + (enc_pairs(s.drop_first()) + enc_pair(x)));
    }
}

/// Appending an entry appends its wire form.
pub proof fn lemma_enc_entries_push(s: Seq<LayerEntry>, x: LayerEntry)
    ensures
        enc_entries(s.push(x)) == enc_entries(s) + enc_entry(x),
    decreases s.len(),
{
    if s.len() == 0 {
        assert(s.push(x) =~= seq![x]);
        assert(seq![x].drop_first() =~= Seq::<LayerEntry>::empty());
        assert(enc_entries(seq![x].drop_first()) =~= Seq::<u8>::empty());
        assert(enc_entries(s.push(x)) =~= enc_entry(x));
        assert(enc_entries(s) + enc_entry(x) =~= enc_entry(x));
    } else {
        lemma_enc_entries_push(s.drop_first(), x);
        assert(s.push(x).drop_first() =~= s.drop_first().push(x));
        assert(s.push(x)[0] == s[0]);
        assert((enc_entry(s[0]) + enc_entries(s.drop_first())) + enc_entry(x) =~= enc_entry(s[0])
            + (enc_entries(s.drop_first()) + enc_entry(x)));
    }
}

/// Appending a topic appends its wire form.
pub proof fn lemma_enc_topics_push(s: Seq<Vec<u8>>, x: Vec<u8>)
    ensures
        enc_topics(s.push(x)) == enc_topics(s) + enc_bytes(x@),
    decreases s.len(),
{
    if s.len() == 0 {
        assert(s.push(x) =~= seq![x]);
        assert(seq![x].drop_first() =~= Seq::<Vec<u8>>::empty());
        assert(enc_topics(seq![x].drop_first()) =~= Seq::<u8>::empty());
        assert(enc_topics(s.push(x)) =~= enc_bytes(x@));
        assert(enc_topics(s) + enc_bytes(x@) =~= enc_bytes(x@));
    } else {
        lemma_enc_topics_push(s.drop_first(), x);
        assert(s.push(x).drop_first() =~= s.drop_first().push(x));
        assert(s.push(x)[0] == s[0]);
        assert((enc_bytes(s[0]@) + enc_topics(s.drop_first())) + enc_bytes(x@) =~= enc_bytes(
            s[0]@,
        ) + (enc_topics(s.drop_first()) + enc_bytes(x@)));
    }
}

/// Appending a log appends its wire form.
pub proof fn lemma_enc_logs_push(s: Seq<LogEntry>, x: LogEntry)
    ensures
        enc_logs(s.push(x)) == enc_logs(s) + enc_log(x),
    decreases s.len(),
{
    if s.len() == 0 {
        assert(s.push(x) =~= seq![x]);
        assert(seq![x].drop_first() =~= Seq::<LogEntry>::empty());
        assert(enc_logs(seq![x].drop_first()) =~= Seq::<u8>::empty());
        assert(enc_logs(s.push(x)) =~= enc_log(x));
        assert(enc_logs(s) + enc_log(x) =~= enc_log(x));
    } else {
        lemma_enc_logs_push(s.drop_first(), x);
        assert(s.push(x).drop_first() =~= s.drop_first().push(x));
        assert(s.push(x)[0] == s[0]);
        assert((enc_log(s[0]) + enc_logs(s.drop_first())) + enc_log(x) =~= enc_log(s[0])
            + (enc_logs(s.drop_first()) + enc_log(x)));
    }
}

/// Appending a layer appends its wire form.
pub proof fn lemma_enc_layers_push(s: Seq<Layer>, x: Layer)
    ensures
        enc_layers(s.push(x)) == enc_layers(s) + enc_layer(x),
    decreases s.len(),
{
    if s.len() == 0 {
        assert(s.push(x) =~= seq![x]);
        assert(seq![x].drop_first() =~= Seq::<Layer>::empty());
        assert(enc_layers(seq![x].drop_first()) =~= Seq::<u8>::empty());
        assert(enc_layers(s.push(x)) =~= enc_layer(x));
        assert(enc_layers(s) + enc_layer(x) =~= enc_layer(x));
    } else {
        lemma_enc_layers_push(s.drop_first(), x);
        assert(s.push(x).drop_first() =~= s.drop_first().push(x));
        assert(s.push(x)[0] == s[0]);
        assert((enc_layer(s[0]) + enc_layers(s.drop_first())) + enc_layer(x) =~= enc_layer(s[0])
            + (enc_layers(s.drop_first()) + enc_layer(x)));
    }
}

/// Appends the wire form of an optional integer.
fn write_opt_u64(out: &mut Vec<u8>, o: &Option<u64>)
    ensures
        final(out)@ == old(out)@ + enc_opt_u64(*o),
{
    match o {
        None => {
            write_u64(out, 0);
            write_u64(out, 0);
        },
        Some(v) => {
            write_u64(out, 1);
            write_u64(out, *v);
        },
    }
    proof {
        assert(final(out)@ =~= old(out)@ + enc_opt_u64(*o));
    }
}

/// Appends the wire form of a flag.
fn write_bool(out: &mut Vec<u8>, b: bool)
    ensures
        final(out)@ == old(out)@ + enc_bool(b),
{
    if b {
        write_u64(out, 1);
    } else {
        write_u64(out, 0);
    }
}

/// Appends the wire form of optional bytes.
fn write_opt_bytes(out: &mut Vec<u8>, o: &Option<Vec<u8>>)
    ensures
        final(out)@ == old(out)@ + enc_opt_bytes(*o),
        (*o) matches Some(c) ==> len_ok(c@.len()),
{
    match o {
        None => {
            write_u64(out, 0);
            let e: Vec<u8> = Vec::new();
            write_bytes(out, &e);
        },
        Some(c) => {
            write_u64(out, 1);
            write_bytes(out, c);
        },
    }
    proof {
        assert(final(out)@ =~= old(out)@ + enc_opt_bytes(*o));
    }
}

/// Appends the wire form of a frame's provenance.
fn write_kind(out: &mut Vec<u8>, k: &CreateReason)
    ensures
        final(out)@ == old(out)@ + enc_kind(*k),
        (*k) matches CreateReason::Create(a) ==> len_ok(a@.len()),
{
    match k {
        CreateReason::Call => {
            write_u64(out, 0);
            let e: Vec<u8> = Vec::new();
            write_bytes(out, &e);
        },
        CreateReason::Create(a) => {
            write_u64(out, 1);
            write_bytes(out, &a.bytes);
        },
    }
    proof {
        assert(final(out)@ =~= old(out)@ + enc_kind(*k));
    }
}

/// Appends the wire form of an execution context.
fn write_context(out: &mut Vec<u8>, c: &Context)
    ensures
        final(out)@ == old(out)@ + enc_context(*c),
        len_ok(c.address@.len()),
        len_ok(c.caller@.len()),
{
    write_bytes(out, &c.address.bytes);
    write_bytes(out, &c.caller.bytes);
    write_u64(out, c.apparent_value);
    proof {
        assert(final(out)@ =~= old(out)@ + enc_context(*c));
    }
}

/// Appends the wire form of one frame.
fn write_frame(out: &mut Vec<u8>, f: &Frame)
    ensures
        final(out)@ == old(out)@ + enc_frame(*f),
        frame_encodable(*f),
{
    write_kind(out, &f.kind);
    write_context(out, &f.context);
    write_bytes(out, &f.code);
    write_bytes(out, &f.input);
    write_bytes(out, &f.micro);
    write_bytes(out, &f.ret);
    proof {
        assert(final(out)@ =~= old(out)@ + enc_frame(*f));
    }
}

/// Appends the wire forms of all frames in order.
fn write_frames(out: &mut Vec<u8>, fs: &Vec<Frame>)
    ensures
        final(out)@ == old(out)@ + enc_frames(fs@),
        forall|i: int| 0 <= i < fs@.len() ==> frame_encodable(#[trigger] fs@[i]),
{
    let mut i: usize = 0;
    proof {
        assert(fs@.subrange(0, 0) =~= Seq::<Frame>::empty());
        assert(out@ =~= old(out)@ + enc_frames(fs@.subrange(0, 0)));
    }
    while i < fs.len()
        invariant
            i <= fs@.len(),
            out@ == old(out)@ + enc_frames(fs@.subrange(0, i as int)),
            forall|j: int| 0 <= j < i ==> frame_encodable(#[trigger] fs@[j]),
        decreases fs@.len() - i,
    {
        proof {
            lemma_enc_frames_push(fs@.subrange(0, i as int), fs@[i as int]);
            assert(fs@.subrange(0, i as int + 1) =~= fs@.subrange(0, i as int).push(fs@[i as int]));
        }
        write_frame(out, &fs[i]);
        proof {
            assert(out@ =~= old(out)@ + enc_frames(fs@.subrange(0, i as int + 1)));
        }
        i += 1;
    }
    proof {
        assert(fs@.subrange(0, fs@.len() as int) =~= fs@);
    }
}

/// Appends the wire forms of all storage writes in order.
fn write_pairs(out: &mut Vec<u8>, ps: &Vec<(u64, u64)>)
    ensures
        final(out)@ == old(out)@ + enc_pairs(ps@),
{
    let mut i: usize = 0;
    proof {
        assert(ps@.subrange(0, 0) =~= Seq::<(u64, u64)>::empty());
        assert(out@ =~= old(out)@ + enc_pairs(ps@.subrange(0, 0)));
    }
    while i < ps.len()
        invariant
            i <= ps@.len(),
            out@ == old(out)@ + enc_pairs(ps@.subrange(0, i as int)),
        decreases ps@.len() - i,
    {
        proof {
            lemma_enc_pairs_push(ps@.subrange(0, i as int), ps@[i as int]);
            assert(ps@.subrange(0, i as int + 1) =~= ps@.subrange(0, i as int).push(ps@[i as int]));
        }
        write_u64(out, ps[i].0);
        write_u64(out, ps[i].1);
        proof {
            assert(out@ =~= old(out)@ + enc_pairs(ps@.subrange(0, i as int + 1)));
        }
        i += 1;
    }
    proof {
        assert(ps@.subrange(0, ps@.len() as int) =~= ps@);
    }
}

/// Appends the wire form of one diff.
fn write_diff(out: &mut Vec<u8>, d: &AccountDiff)
    ensures
        final(out)@ == old(out)@ + enc_diff(*d),
        diff_encodable(*d),
{
    write_opt_u64(out, &d.nonce);
    write_opt_u64(out, &d.balance);
    write_opt_bytes(out, &d.code);
    let n = d.storage.len();
    write_u64(out, n as u64);
    write_pairs(out, &d.storage);
    write_bool(out, d.reset_storage);
    write_bool(out, d.deleted);
    proof {
        assert(n as u64 as nat == d.storage@.len());
        assert(len_ok(d.storage@.len())) by {
            reveal_with_fuel(pow256, 9);
        }
        assert(final(out)@ =~= old(out)@ + enc_diff(*d));
    }
}

/// Appends the wire form of one entry.
fn write_entry(out: &mut Vec<u8>, e: &LayerEntry)
    ensures
        final(out)@ == old(out)@ + enc_entry(*e),
        entry_encodable(*e),
{
    write_bytes(out, &e.address.bytes);
    write_diff(out, &e.diff);
    proof {
        assert(final(out)@ =~= old(out)@ + enc_entry(*e));
    }
}

/// Appends the wire forms of all entries in order.
fn write_entries(out: &mut Vec<u8>, es: &Vec<LayerEntry>)
    ensures
        final(out)@ == old(out)@ + enc_entries(es@),
        forall|i: int| 0 <= i < es@.len() ==> entry_encodable(#[trigger] es@[i]),
{
    let mut i: usize = 0;
    proof {
        assert(es@.subrange(0, 0) =~= Seq::<LayerEntry>::empty());
        assert(out@ =~= old(out)@ + enc_entries(es@.subrange(0, 0)));
    }
    while i < es.len()
        invariant
            i <= es@.len(),
            out@ == old(out)@ + enc_entries(es@.subrange(0, i as int)),
            forall|j: int| 0 <= j < i ==> entry_encodable(#[trigger] es@[j]),
        decreases es@.len() - i,
    {
        proof {
            lemma_enc_entries_push(es@.subrange(0, i as int), es@[i as int]);
            assert(es@.subrange(0, i as int + 1) =~= es@.subrange(0, i as int).push(es@[i as int]));
        }
        write_entry(out, &es[i]);
        proof {
            assert(out@ =~= old(out)@ + enc_entries(es@.subrange(0, i as int + 1)));
        }
        i += 1;
    }
    proof {
        assert(es@.subrange(0, es@.len() as int) =~= es@);
    }
}

/// Appends the wire forms of all topics in order.
fn write_topics(out: &mut Vec<u8>, ts: &Vec<Vec<u8>>)
    ensures
        final(out)@ == old(out)@ + enc_topics(ts@),
        forall|i: int| 0 <= i < ts@.len() ==> len_ok((#[trigger] ts@[i])@.len()),
{
    let mut i: usize = 0;
    proof {
        assert(ts@.subrange(0, 0) =~= Seq::<Vec<u8>>::empty());
        assert(out@ =~= old(out)@ + enc_topics(ts@.subrange(0, 0)));
    }
    while i < ts.len()
        invariant
            i <= ts@.len(),
            out@ == old(out)@ + enc_topics(ts@.subrange(0, i as int)),
            forall|j: int| 0 <= j < i ==> len_ok((#[trigger] ts@[j])@.len()),
        decreases ts@.len() - i,
    {
        proof {
            lemma_enc_topics_push(ts@.subrange(0, i as int), ts@[i as int]);
            assert(ts@.subrange(0, i as int + 1) =~= ts@.subrange(0, i as int).push(ts@[i as int]));
        }
        write_bytes(out, &ts[i]);
        proof {
            assert(out@ =~= old(out)@ + enc_topics(ts@.subrange(0, i as int + 1)));
        }
        i += 1;
    }
    proof {
        assert(ts@.subrange(0, ts@.len() as int) =~= ts@);
    }
}

/// Appends the wire form of one log record.
fn write_log(out: &mut Vec<u8>, l: &LogEntry)
    ensures
        final(out)@ == old(out)@ + enc_log(*l),
        log_encodable(*l),
{
    write_bytes(out, &l.address.bytes);
    let n = l.topics.len();
    write_u64(out, n as u64);
    write_topics(out, &l.topics);
    write_bytes(out, &l.data);
    proof {
        assert(n as u64 as nat == l.topics@.len());
        assert(len_ok(l.topics@.len())) by {
            reveal_with_fuel(pow256, 9);
        }
        assert(final(out)@ =~= old(out)@ + enc_log(*l));
    }
}

/// Appends the wire forms of all logs in order.
fn write_logs(out: &mut Vec<u8>, ls: &Vec<LogEntry>)
    ensures
        final(out)@ == old(out)@ + enc_logs(ls@),
        forall|i: int| 0 <= i < ls@.len() ==> log_encodable(#[trigger] ls@[i]),
{
    let mut i: usize = 0;
    proof {
        assert(ls@.subrange(0, 0) =~= Seq::<LogEntry>::empty());
        assert(out@ =~= old(out)@ + enc_logs(ls@.subrange(0, 0)));
    }
    while i < ls.len()
        invariant
            i <= ls@.len(),
            out@ == old(out)@ + enc_logs(ls@.subrange(0, i as int)),
            forall|j: int| 0 <= j < i ==> log_encodable(#[trigger] ls@[j]),
        decreases ls@.len() - i,
    {
        proof {
            lemma_enc_logs_push(ls@.subrange(0, i as int), ls@[i as int]);
            assert(ls@.subrange(0, i as int + 1) =~= ls@.subrange(0, i as int).push(ls@[i as int]));
        }
        write_log(out, &ls[i]);
        proof {
            assert(out@ =~= old(out)@ + enc_logs(ls@.subrange(0, i as int + 1)));
        }
        i += 1;
    }
    proof {
        assert(ls@.subrange(0, ls@.len() as int) =~= ls@);
    }
}

/// Appends the wire form of one layer.
fn write_layer(out: &mut Vec<u8>, l: &Layer)
    ensures
        final(out)@ == old(out)@ + enc_layer(*l),
        layer_encodable(*l),
{
    let ne = l.entries.len();
    write_u64(out, ne as u64);
    write_entries(out, &l.entries);
    let nl = l.logs.len();
    write_u64(out, nl as u64);
    write_logs(out, &l.logs);
    proof {
        assert(ne as u64 as nat == l.entries@.len());
        assert(nl as u64 as nat == l.logs@.len());
        assert(len_ok(l.entries@.len()) && len_ok(l.logs@.len())) by {
            reveal_with_fuel(pow256, 9);
        }
        assert(final(out)@ =~= old(out)@ + enc_layer(*l));
    }
}

/// Appends the wire forms of all layers in order.
fn write_layers(out: &mut Vec<u8>, ls: &Vec<Layer>)
    ensures
        final(out)@ == old(out)@ + enc_layers(ls@),
        forall|i: int| 0 <= i < ls@.len() ==> layer_encodable(#[trigger] ls@[i]),
{
    let mut i: usize = 0;
    proof {
        assert(ls@.subrange(0, 0) =~= Seq::<Layer>::empty());
        assert(out@ =~= old(out)@ + enc_layers(ls@.subrange(0, 0)));
    }
    while i < ls.len()
        invariant
            i <= ls@.len(),
            out@ == old(out)@ + enc_layers(ls@.subrange(0, i as int)),
            forall|j: int| 0 <= j < i ==> layer_encodable(#[trigger] ls@[j]),
        decreases ls@.len() - i,
    {
        proof {
            lemma_enc_layers_push(ls@.subrange(0, i as int), ls@[i as int]);
            assert(ls@.subrange(0, i as int + 1) =~= ls@.subrange(0, i as int).push(ls@[i as int]));
        }
        write_layer(out, &ls[i]);
        proof {
            assert(out@ =~= old(out)@ + enc_layers(ls@.subrange(0, i as int + 1)));
        }
        i += 1;
    }
    proof {
        assert(ls@.subrange(0, ls@.len() as int) =~= ls@);
    }
}

/// Appends the wire form of a whole suspended machine.
fn write_machine(out: &mut Vec<u8>, fs: &Vec<Frame>, ls: &Vec<Layer>)
    ensures
        final(out)@ == old(out)@ + enc_machine(fs@, ls@),
        machine_encodable(fs@, ls@),
{
    let nf = fs.len();
    write_u64(out, nf as u64);
    write_frames(out, fs);
    let nl = ls.len();
    write_u64(out, nl as u64);
    write_layers(out, ls);
    proof {
        assert(nf as u64 as nat == fs@.len());
        assert(nl as u64 as nat == ls@.len());
        assert(len_ok(fs@.len()) && len_ok(ls@.len())) by {
            reveal_with_fuel(pow256, 9);
        }
        assert(final(out)@ =~= old(out)@ + enc_machine(fs@, ls@));
    }
}

/// Every address stored in a layer is well formed.
pub open spec fn layer_addrs_wf(l: Layer) -> bool {
    &&& forall|j: int| 0 <= j < l.entries@.len() ==> (#[trigger] l.entries@[j]).address.wf()
    &&& forall|j: int| 0 <= j < l.logs@.len() ==> (#[trigger] l.logs@[j]).address.wf()
}

/// Reads an address: exactly 20 length-prefixed bytes.
fn read_addr(buf: &Vec<u8>, pos: &mut usize) -> (r: Option<Address>)
    requires
        *old(pos) <= buf@.len(),
    ensures
        *old(pos) <= *final(pos) <= buf@.len(),
        r matches Some(a) ==> a.wf() && buf@.subrange(*old(pos) as int, *final(pos) as int)
            == enc_bytes(a@),
        forall|s: Seq<u8>, rest: Seq<u8>|
            s.len() == 20 && buf@.skip(*old(pos) as int) == #[trigger] (enc_bytes(s) + rest)
                ==> r is Some && r.unwrap()@ == s && buf@.skip(*final(pos) as int) == rest,
{
    proof {
        reveal_with_fuel(pow256, 9);
    }
    let b = match read_bytes(buf, pos) {
        Some(b) => b,
        None => {
            return None;
        },
    };
    if b.len() != ADDRESS_LEN {
        return None;
    }
    Some(Address { bytes: b })
}

/// Reads a frame's provenance.
fn read_kind(buf: &Vec<u8>, pos: &mut usize) -> (r: Option<CreateReason>)
    requires
        *old(pos) <= buf@.len(),
    ensures
        *old(pos) <= *final(pos) <= buf@.len(),
        r matches Some(k) ==> (match k {
            CreateReason::Call => true,
            CreateReason::Create(a) => a.wf(),
        }) && buf@.subrange(*old(pos) as int, *final(pos) as int) == enc_kind(k),
        forall|k: CreateReason, rest: Seq<u8>|
            (match k {
                CreateReason::Call => true,
                CreateReason::Create(a) => a.wf(),
            }) && buf@.skip(*old(pos) as int) == #[trigger] (enc_kind(k) + rest) ==> r is Some
                && buf@.skip(*final(pos) as int) == rest,
{
    proof {
        reveal_with_fuel(pow256, 9);
    }
    let ghost p0 = *pos;
    let tag = match read_u64(buf, pos) {
        Some(t) => t,
        None => {
            proof {
                assert forall|k: CreateReason, rest: Seq<u8>|
                    (match k {
                        CreateReason::Call => true,
                        CreateReason::Create(a) => a.wf(),
                    }) && buf@.skip(p0 as int) == #[trigger] (enc_kind(k) + rest) implies false by {
                    kind_flat(k, rest);
                }
            }
            return None;
        },
    };
    proof {
        assert forall|k: CreateReason, rest: Seq<u8>|
            (match k {
                CreateReason::Call => true,
                CreateReason::Create(a) => a.wf(),
            }) && buf@.skip(p0 as int) == #[trigger] (enc_kind(k) + rest) implies (tag == 0 ==> k
            is Call) && (tag == 1 ==> k is Create) && (tag == 0 || tag == 1) && buf@.skip(
            *pos as int,
        ) == enc_bytes(kind_payload(k)) + rest && kind_payload(k).len() < pow256(8) by {
            reveal_with_fuel(pow256, 9);
            kind_flat(k, rest);
            let t: u64 = match k {
                CreateReason::Call => 0u64,
                CreateReason::Create(a) => 1u64,
            };
            lemma_skip_concat(buf@, p0 as int, enc_u64(t), enc_bytes(kind_payload(k)) + rest);
            lemma_le_bytes_len(t as nat, 8);
        }
    }
    let ghost p1 = *pos;
    let b = match read_bytes(buf, pos) {
        Some(b) => b,
        None => {
            return None;
        },
    };
    if tag == 0 {
        if b.len() != 0 {
            return None;
        }
        proof {
            assert(enc_kind(CreateReason::Call) =~= enc_u64(0) + enc_bytes(b@));
            assert(buf@.subrange(p0 as int, *pos as int) =~= buf@.subrange(p0 as int, p1 as int)
                + buf@.subrange(p1 as int, *pos as int));
            assert(buf@.subrange(p0 as int, *pos as int) =~= enc_kind(CreateReason::Call));
        }
        Some(CreateReason::Call)
    } else if tag == 1 {
        if b.len() != ADDRESS_LEN {
            return None;
        }
        proof {
            assert(enc_kind(CreateReason::Create(Address { bytes: b })) =~= enc_u64(1)
                + enc_bytes(b@));
            assert(buf@.subrange(p0 as int, *pos as int) =~= buf@.subrange(p0 as int, p1 as int)
                + buf@.subrange(p1 as int, *pos as int));
            assert(buf@.subrange(p0 as int, *pos as int) =~= enc_kind(
                CreateReason::Create(Address { bytes: b }),
            ));
        }
        Some(CreateReason::Create(Address { bytes: b }))
    } else {
        None
    }
}

/// The byte payload of a provenance tag's wire form.
pub open spec fn kind_payload(k: CreateReason) -> Seq<u8> {
    match k {
        CreateReason::Call => Seq::empty(),
        CreateReason::Create(a) => a@,
    }
}

/// A provenance tag's wire form, re-grouped head first.
proof fn kind_flat(k: CreateReason, rest: Seq<u8>)
    ensures
        enc_kind(k) + rest == enc_u64(
            match k {
                CreateReason::Call => 0u64,
                CreateReason::Create(a) => 1u64,
            },
        ) + (enc_bytes(kind_payload(k)) + rest),
{
    match k {
        CreateReason::Call => {
            assert(enc_kind(k) + rest =~= enc_u64(0) + (enc_bytes(kind_payload(k)) + rest));
        },
        CreateReason::Create(a) => {
            assert(enc_kind(k) + rest =~= enc_u64(1) + (enc_bytes(kind_payload(k)) + rest));
        },
    }
}

/// Reads an execution context.
fn read_context(buf: &Vec<u8>, pos: &mut usize) -> (r: Option<Context>)
    requires
        *old(pos) <= buf@.len(),
    ensures
        *old(pos) <= *final(pos) <= buf@.len(),
        r matches Some(c) ==> c.address.wf() && c.caller.wf() && buf@.subrange(
            *old(pos) as int,
            *final(pos) as int,
        ) == enc_context(c),
        forall|c: Context, rest: Seq<u8>|
            c.address.wf() && c.caller.wf() && buf@.skip(*old(pos) as int) == #[trigger] (
            enc_context(c) + rest) ==> r is Some && buf@.skip(*final(pos) as int) == rest,
{
    let ghost p0 = *pos;
    proof {
        assert forall|c: Context, rest: Seq<u8>|
            buf@.skip(p0 as int) == #[trigger] (enc_context(c) + rest) implies buf@.skip(
            p0 as int,
        ) == enc_bytes(c.address@) + (enc_bytes(c.caller@) + (enc_u64(c.apparent_value)
            + rest)) by {
            assert(enc_context(c) + rest =~= enc_bytes(c.address@) + (enc_bytes(c.caller@) + (
            enc_u64(c.apparent_value) + rest)));
        }
    }
    let address = match read_addr(buf, pos) {
        Some(a) => a,
        None => {
            return None;
        },
    };
    let ghost p1 = *pos;
    let caller = match read_addr(buf, pos) {
        Some(a) => a,
        None => {
            return None;
        },
    };
    let ghost p2 = *pos;
    let apparent_value = match read_u64(buf, pos) {
        Some(v) => v,
        None => {
            return None;
        },
    };
    proof {
        assert(p0 <= p1 <= p2 <= *pos);
        assert forall|c: Context, rest: Seq<u8>|
            c.address.wf() && c.caller.wf() && buf@.skip(p0 as int) == #[trigger] (enc_context(c)
                + rest) implies buf@.skip(*pos as int) == rest by {
            assert(buf@.skip(p2 as int) == enc_u64(c.apparent_value) + rest);
            lemma_skip_concat(buf@, p2 as int, enc_u64(c.apparent_value), rest);
            lemma_le_bytes_len(c.apparent_value as nat, 8);
        }
        assert(buf@.subrange(p0 as int, *pos as int) =~= (buf@.subrange(p0 as int, p1 as int)
            + buf@.subrange(p1 as int, p2 as int)) + buf@.subrange(p2 as int, *pos as int));
        assert(buf@.subrange(p0 as int, *pos as int) =~= enc_context(
            Context { address: Address { bytes: address.bytes }, caller: Address { bytes: caller.bytes }, apparent_value },
        ));
    }
    Some(Context { address, caller, apparent_value })
}

/// Reads an optional integer.
fn read_opt_u64(buf: &Vec<u8>, pos: &mut usize) -> (r: Option<Option<u64>>)
    requires
        *old(pos) <= buf@.len(),
    ensures
        *old(pos) <= *final(pos) <= buf@.len(),
        r matches Some(o) ==> buf@.subrange(*old(pos) as int, *final(pos) as int) == enc_opt_u64(
            o,
        ),
        forall|o: Option<u64>, rest: Seq<u8>|
            buf@.skip(*old(pos) as int) == #[trigger] (enc_opt_u64(o) + rest) ==> r is Some
                && buf@.skip(*final(pos) as int) == rest,
{
    let ghost p0 = *pos;
    proof {
        assert forall|o: Option<u64>, rest: Seq<u8>|
            buf@.skip(p0 as int) == #[trigger] (enc_opt_u64(o) + rest) implies buf@.skip(
            p0 as int,
        ) == enc_u64(opt_tag(o)) + (enc_u64(opt_val(o)) + rest) && buf@.skip(p0 as int + 8)
            == enc_u64(opt_val(o)) + rest && buf@.skip(p0 as int + 16) == rest by {
            assert(enc_opt_u64(o) + rest =~= enc_u64(opt_tag(o)) + (enc_u64(opt_val(o)) + rest));
            lemma_le_bytes_len(opt_tag(o) as nat, 8);
            lemma_le_bytes_len(opt_val(o) as nat, 8);
            lemma_skip_concat(buf@, p0 as int, enc_u64(opt_tag(o)), enc_u64(opt_val(o)) + rest);
            lemma_skip_concat(buf@, p0 as int + 8, enc_u64(opt_val(o)), rest);
        }
    }
    let tag = match read_u64(buf, pos) {
        Some(t) => t,
        None => {
            return None;
        },
    };
    let ghost p1 = *pos;
    let v = match read_u64(buf, pos) {
        Some(v) => v,
        None => {
            return None;
        },
    };
    proof {
        assert(buf@.subrange(p0 as int, *pos as int) =~= buf@.subrange(p0 as int, p1 as int)
            + buf@.subrange(p1 as int, *pos as int));
    }
    if tag == 0 {
        if v != 0 {
            return None;
        }
        proof {
            assert(buf@.subrange(p0 as int, *pos as int) =~= enc_opt_u64(None));
        }
        Some(None)
    } else if tag == 1 {
        proof {
            assert(buf@.subrange(p0 as int, *pos as int) =~= enc_opt_u64(Some(v)));
        }
        Some(Some(v))
    } else {
        None
    }
}

/// The tag of an optional integer's wire form.
pub open spec fn opt_tag(o: Option<u64>) -> u64 {
    match o {
        None => 0,
        Some(v) => 1,
    }
}

/// The value slot of an optional integer's wire form.
pub open spec fn opt_val(o: Option<u64>) -> u64 {
    match o {
        None => 0,
        Some(v) => v,
    }
}

/// Reads a flag.
fn read_bool(buf: &Vec<u8>, pos: &mut usize) -> (r: Option<bool>)
    requires
        *old(pos) <= buf@.len(),
    ensures
        *old(pos) <= *final(pos) <= buf@.len(),
        r matches Some(b) ==> buf@.subrange(*old(pos) as int, *final(pos) as int) == enc_bool(b),
        forall|b: bool, rest: Seq<u8>|
            buf@.skip(*old(pos) as int) == #[trigger] (enc_bool(b) + rest) ==> r is Some
                && buf@.skip(*final(pos) as int) == rest,
{
    let ghost p0 = *pos;
    proof {
        assert forall|b: bool, rest: Seq<u8>|
            buf@.skip(p0 as int) == #[trigger] (enc_bool(b) + rest) implies buf@.skip(p0 as int)
            == enc_u64(if b { 1u64 } else { 0u64 }) + rest && buf@.skip(p0 as int + 8)
            == rest by {
            assert(enc_bool(b) + rest =~= enc_u64(if b { 1u64 } else { 0u64 }) + rest);
            lemma_le_bytes_len(if b { 1u64 } else { 0u64 } as nat, 8);
            lemma_skip_concat(buf@, p0 as int, enc_u64(if b { 1u64 } else { 0u64 }), rest);
        }
    }
    match read_u64(buf, pos) {
        Some(t) => {
            if t == 0 {
                Some(false)
            } else if t == 1 {
                Some(true)
            } else {
                None
            }
        },
        None => None,
    }
}

/// Reads optional bytes.
fn read_opt_bytes(buf: &Vec<u8>, pos: &mut usize) -> (r: Option<Option<Vec<u8>>>)
    requires
        *old(pos) <= buf@.len(),
    ensures
        *old(pos) <= *final(pos) <= buf@.len(),
        r matches Some(o) ==> buf@.subrange(*old(pos) as int, *final(pos) as int)
            == enc_opt_bytes(o),
        forall|o: Option<Vec<u8>>, rest: Seq<u8>|
            (o matches Some(c) ==> len_ok(c@.len())) && buf@.skip(*old(pos) as int) == #[trigger] (
            enc_opt_bytes(o) + rest) ==> r is Some && buf@.skip(*final(pos) as int) == rest,
{
    proof {
        reveal_with_fuel(pow256, 9);
    }
    let ghost p0 = *pos;
    proof {
        assert forall|o: Option<Vec<u8>>, rest: Seq<u8>|
            buf@.skip(p0 as int) == #[trigger] (enc_opt_bytes(o) + rest) implies buf@.skip(
            p0 as int,
        ) == enc_u64(opt_bytes_tag(o)) + (enc_bytes(opt_bytes_payload(o)) + rest) && buf@.skip(
            p0 as int + 8,
        ) == enc_bytes(opt_bytes_payload(o)) + rest by {
            assert(enc_opt_bytes(o) + rest =~= enc_u64(opt_bytes_tag(o)) + (enc_bytes(
                opt_bytes_payload(o),
            ) + rest));
            lemma_le_bytes_len(opt_bytes_tag(o) as nat, 8);
            lemma_skip_concat(
                buf@,
                p0 as int,
                enc_u64(opt_bytes_tag(o)),
                enc_bytes(opt_bytes_payload(o)) + rest,
            );
        }
    }
    let tag = match read_u64(buf, pos) {
        Some(t) => t,
        None => {
            return None;
        },
    };
    let ghost p1 = *pos;
    let b = match read_bytes(buf, pos) {
        Some(b) => b,
        None => {
            return None;
        },
    };
    proof {
        assert(buf@.subrange(p0 as int, *pos as int) =~= buf@.subrange(p0 as int, p1 as int)
            + buf@.subrange(p1 as int, *pos as int));
    }
    if tag == 0 {
        if b.len() != 0 {
            return None;
        }
        proof {
            assert(buf@.subrange(p0 as int, *pos as int) =~= enc_opt_bytes(None));
        }
        Some(None)
    } else if tag == 1 {
        proof {
            assert(buf@.subrange(p0 as int, *pos as int) =~= enc_opt_bytes(Some(b)));
        }
        Some(Some(b))
    } else {
        None
    }
}

/// The tag of optional bytes' wire form.
pub open spec fn opt_bytes_tag(o: Option<Vec<u8>>) -> u64 {
    match o {
        None => 0,
        Some(c) => 1,
    }
}

/// The payload of optional bytes' wire form.
pub open spec fn opt_bytes_payload(o: Option<Vec<u8>>) -> Seq<u8> {
    match o {
        None => Seq::empty(),
        Some(c) => c@,
    }
}

/// Reads one frame.
fn read_frame(buf: &Vec<u8>, pos: &mut usize) -> (r: Option<Frame>)
    requires
        *old(pos) <= buf@.len(),
    ensures
        *old(pos) <= *final(pos) <= buf@.len(),
        r matches Some(f) ==> crate::machine::frame_wf(f) && buf@.subrange(
            *old(pos) as int,
            *final(pos) as int,
        ) == enc_frame(f),
        forall|f: Frame, rest: Seq<u8>|
            crate::machine::frame_wf(f) && frame_encodable(f) && buf@.skip(*old(pos) as int)
                == #[trigger] (enc_frame(f) + rest) ==> r is Some && buf@.skip(*final(pos) as int)
                == rest,
{
    let ghost p0 = *pos;
    proof {
        assert forall|f: Frame, rest: Seq<u8>|
            buf@.skip(p0 as int) == #[trigger] (enc_frame(f) + rest) implies buf@.skip(p0 as int)
            == enc_kind(f.kind) + (enc_context(f.context) + (enc_bytes(f.code@) + (enc_bytes(
            f.input@,
        ) + (enc_bytes(f.micro@) + (enc_bytes(f.ret@) + rest))))) by {
            assert(enc_frame(f) + rest =~= enc_kind(f.kind) + (enc_context(f.context) + (
            enc_bytes(f.code@) + (enc_bytes(f.input@) + (enc_bytes(f.micro@) + (enc_bytes(f.ret@)
                + rest))))));
        }
    }
    let kind = match read_kind(buf, pos) {
        Some(k) => k,
        None => {
            return None;
        },
    };
    let ghost p1 = *pos;
    let context = match read_context(buf, pos) {
        Some(c) => c,
        None => {
            return None;
        },
    };
    let ghost p2 = *pos;
    let code = match read_bytes(buf, pos) {
        Some(b) => b,
        None => {
            return None;
        },
    };
    let ghost p3 = *pos;
    let input = match read_bytes(buf, pos) {
        Some(b) => b,
        None => {
            return None;
        },
    };
    let ghost p4 = *pos;
    let micro = match read_bytes(buf, pos) {
        Some(b) => b,
        None => {
            return None;
        },
    };
    let ghost p5 = *pos;
    let ret = match read_bytes(buf, pos) {
        Some(b) => b,
        None => {
            return None;
        },
    };
    let f = Frame { kind, code, input, context, micro, ret };
    proof {
        assert(p0 <= p1 <= p2 <= p3 <= p4 <= p5 <= *pos);
        assert(buf@.subrange(p0 as int, *pos as int) =~= ((((buf@.subrange(p0 as int, p1 as int)
            + buf@.subrange(p1 as int, p2 as int)) + buf@.subrange(p2 as int, p3 as int))
            + buf@.subrange(p3 as int, p4 as int)) + buf@.subrange(p4 as int, p5 as int))
            + buf@.subrange(p5 as int, *pos as int));
        assert(buf@.subrange(p0 as int, *pos as int) =~= enc_frame(f));
    }
    Some(f)
}

/// Reads a counted list of frames.
fn read_frames(buf: &Vec<u8>, pos: &mut usize, n: u64) -> (r: Option<Vec<Frame>>)
    requires
        *old(pos) <= buf@.len(),
    ensures
        *old(pos) <= *final(pos) <= buf@.len(),
        r matches Some(fs) ==> fs@.len() == n && (forall|i: int|
            0 <= i < fs@.len() ==> crate::machine::frame_wf(#[trigger] fs@[i])) && buf@.subrange(
            *old(pos) as int,
            *final(pos) as int,
        ) == enc_frames(fs@),
        forall|xs: Seq<Frame>, rest: Seq<u8>|
            xs.len() == n && (forall|i: int|
                0 <= i < xs.len() ==> crate::machine::frame_wf(#[trigger] xs[i])
                    && frame_encodable(xs[i])) && buf@.skip(*old(pos) as int) == #[trigger] (
            enc_frames(xs) + rest) ==> r is Some && buf@.skip(*final(pos) as int) == rest,
    decreases n,
{
    let ghost p0 = *pos;
    if n == 0 {
        proof {
            assert(buf@.subrange(p0 as int, p0 as int) =~= Seq::<u8>::empty());
            assert(enc_frames(Seq::<Frame>::empty()) == Seq::<u8>::empty());
            assert forall|xs: Seq<Frame>, rest: Seq<u8>|
                xs.len() == 0 && buf@.skip(p0 as int) == #[trigger] (enc_frames(xs) + rest)
                implies buf@.skip(p0 as int) == rest by {
                assert(enc_frames(xs) + rest =~= rest);
            }
        }
        let fs: Vec<Frame> = Vec::new();
        proof {
            assert(fs@ =~= Seq::<Frame>::empty());
        }
        return Some(fs);
    }
    proof {
        assert forall|xs: Seq<Frame>, rest: Seq<u8>|
            xs.len() == n && buf@.skip(p0 as int) == #[trigger] (enc_frames(xs) + rest)
            implies buf@.skip(p0 as int) == enc_frame(xs[0]) + (enc_frames(xs.drop_first())
            + rest) && xs.drop_first().len() == n - 1 by {
            assert(enc_frames(xs) =~= enc_frame(xs[0]) + enc_frames(xs.drop_first()));
            assert(enc_frames(xs) + rest =~= enc_frame(xs[0]) + (enc_frames(xs.drop_first())
                + rest));
        }
    }
    let f = match read_frame(buf, pos) {
        Some(f) => f,
        None => {
            return None;
        },
    };
    let ghost p1 = *pos;
    let mut tail = match read_frames(buf, pos, n - 1) {
        Some(t) => t,
        None => {
            proof {
                assert forall|xs: Seq<Frame>, rest: Seq<u8>|
                    xs.len() == n && (forall|i: int|
                        0 <= i < xs.len() ==> crate::machine::frame_wf(#[trigger] xs[i])
                            && frame_encodable(xs[i])) && buf@.skip(p0 as int) == #[trigger] (
                    enc_frames(xs) + rest) implies false by {
                    assert(forall|i: int|
                        0 <= i < xs.drop_first().len() ==> crate::machine::frame_wf(
                            #[trigger] xs.drop_first()[i],
                        ) && frame_encodable(xs.drop_first()[i]));
                }
            }
            return None;
        },
    };
    let ghost tl = tail@;
    let mut fs: Vec<Frame> = Vec::new();
    fs.push(f);
    fs.append(&mut tail);
    proof {
        assert(p0 <= p1 <= *pos);
        assert(fs@.drop_first() =~= fs@.skip(1));
        assert(fs@.drop_first() =~= tl);
        assert(enc_frames(fs@) =~= enc_frame(fs@[0]) + enc_frames(fs@.drop_first()));
        assert(buf@.subrange(p0 as int, *pos as int) =~= buf@.subrange(p0 as int, p1 as int)
            + buf@.subrange(p1 as int, *pos as int));
        assert(buf@.subrange(p0 as int, *pos as int) =~= enc_frames(fs@));
        assert forall|xs: Seq<Frame>, rest: Seq<u8>|
            xs.len() == n && (forall|i: int|
                0 <= i < xs.len() ==> crate::machine::frame_wf(#[trigger] xs[i])
                    && frame_encodable(xs[i])) && buf@.skip(p0 as int) == #[trigger] (enc_frames(
            xs,
        ) + rest) implies buf@.skip(*pos as int) == rest by {
            assert(forall|i: int|
                0 <= i < xs.drop_first().len() ==> crate::machine::frame_wf(
                    #[trigger] xs.drop_first()[i],
                ) && frame_encodable(xs.drop_first()[i]));
        }
    }
    Some(fs)
}

/// Reads a counted list of storage writes.
fn read_pairs(buf: &Vec<u8>, pos: &mut usize, n: u64) -> (r: Option<Vec<(u64, u64)>>)
    requires
        *old(pos) <= buf@.len(),
    ensures
        *old(pos) <= *final(pos) <= buf@.len(),
        r matches Some(ps) ==> ps@.len() == n && buf@.subrange(
            *old(pos) as int,
            *final(pos) as int,
        ) == enc_pairs(ps@),
        forall|xs: Seq<(u64, u64)>, rest: Seq<u8>|
            xs.len() == n && buf@.skip(*old(pos) as int) == #[trigger] (enc_pairs(xs) + rest)
                ==> r is Some && buf@.skip(*final(pos) as int) == rest,
    decreases n,
{
    let ghost p0 = *pos;
    if n == 0 {
        proof {
            assert(buf@.subrange(p0 as int, p0 as int) =~= Seq::<u8>::empty());
            assert(enc_pairs(Seq::<(u64, u64)>::empty()) == Seq::<u8>::empty());
            assert forall|xs: Seq<(u64, u64)>, rest: Seq<u8>|
                xs.len() == 0 && buf@.skip(p0 as int) == #[trigger] (enc_pairs(xs) + rest)
                implies buf@.skip(p0 as int) == rest by {
                assert(enc_pairs(xs) + rest =~= rest);
            }
        }
        let ps: Vec<(u64, u64)> = Vec::new();
        proof {
            assert(ps@ =~= Seq::<(u64, u64)>::empty());
        }
        return Some(ps);
    }
    proof {
        assert forall|xs: Seq<(u64, u64)>, rest: Seq<u8>|
            xs.len() == n && buf@.skip(p0 as int) == #[trigger] (enc_pairs(xs) + rest)
            implies buf@.skip(p0 as int) == enc_u64(xs[0].0) + (enc_u64(xs[0].1) + (enc_pairs(
            xs.drop_first(),
        ) + rest)) && buf@.skip(p0 as int + 8) == enc_u64(xs[0].1) + (enc_pairs(xs.drop_first())
            + rest) && buf@.skip(p0 as int + 16) == enc_pairs(xs.drop_first()) + rest
            && xs.drop_first().len() == n - 1 by {
            assert(enc_pairs(xs) =~= enc_pair(xs[0]) + enc_pairs(xs.drop_first()));
            assert(enc_pairs(xs) + rest =~= enc_u64(xs[0].0) + (enc_u64(xs[0].1) + (enc_pairs(
                xs.drop_first(),
            ) + rest)));
            lemma_le_bytes_len(xs[0].0 as nat, 8);
            lemma_le_bytes_len(xs[0].1 as nat, 8);
            lemma_skip_concat(buf@, p0 as int, enc_u64(xs[0].0), enc_u64(xs[0].1) + (enc_pairs(
                xs.drop_first(),
            ) + rest));
            lemma_skip_concat(buf@, p0 as int + 8, enc_u64(xs[0].1), enc_pairs(xs.drop_first())
                + rest);
        }
    }
    let a = match read_u64(buf, pos) {
        Some(v) => v,
        None => {
            return None;
        },
    };
    let b = match read_u64(buf, pos) {
        Some(v) => v,
        None => {
            return None;
        },
    };
    let ghost p1 = *pos;
    let mut tail = match read_pairs(buf, pos, n - 1) {
        Some(t) => t,
        None => {
            return None;
        },
    };
    let ghost tl = tail@;
    let mut ps: Vec<(u64, u64)> = Vec::new();
    ps.push((a, b));
    ps.append(&mut tail);
    proof {
        assert(p0 <= p1 <= *pos);
        assert(ps@.drop_first() =~= ps@.skip(1));
        assert(ps@.drop_first() =~= tl);
        assert(enc_pairs(ps@) =~= enc_pair(ps@[0]) + enc_pairs(ps@.drop_first()));
        assert(buf@.subrange(p0 as int, *pos as int) =~= (buf@.subrange(p0 as int, p0 as int + 8)
            + buf@.subrange(p0 as int + 8, p1 as int)) + buf@.subrange(p1 as int, *pos as int));
        assert(buf@.subrange(p0 as int, *pos as int) =~= enc_pairs(ps@));
    }
    Some(ps)
}

/// Reads one diff.
fn read_diff(buf: &Vec<u8>, pos: &mut usize) -> (r: Option<AccountDiff>)
    requires
        *old(pos) <= buf@.len(),
    ensures
        *old(pos) <= *final(pos) <= buf@.len(),
        r matches Some(d) ==> buf@.subrange(*old(pos) as int, *final(pos) as int) == enc_diff(d),
        forall|d: AccountDiff, rest: Seq<u8>|
            diff_encodable(d) && buf@.skip(*old(pos) as int) == #[trigger] (enc_diff(d) + rest)
                ==> r is Some && buf@.skip(*final(pos) as int) == rest,
{
    let ghost p0 = *pos;
    proof {
        assert forall|d: AccountDiff, rest: Seq<u8>|
            diff_encodable(d) && buf@.skip(p0 as int) == #[trigger] (enc_diff(d) + rest)
            implies buf@.skip(p0 as int) == enc_opt_u64(d.nonce) + (enc_opt_u64(d.balance) + (
        enc_opt_bytes(d.code) + (enc_u64(d.storage@.len() as u64) + (enc_pairs(d.storage@) + (
        enc_bool(d.reset_storage) + (enc_bool(d.deleted) + rest)))))) && (d.storage@.len()
            as u64) as nat == d.storage@.len() by {
            reveal_with_fuel(pow256, 9);
            lemma_diff_flat(d, rest);
        }
    }
    let nonce = match read_opt_u64(buf, pos) {
        Some(o) => o,
        None => {
            return None;
        },
    };
    let ghost p1 = *pos;
    let balance = match read_opt_u64(buf, pos) {
        Some(o) => o,
        None => {
            return None;
        },
    };
    let ghost p2 = *pos;
    let code = match read_opt_bytes(buf, pos) {
        Some(o) => o,
        None => {
            return None;
        },
    };
    let ghost p3 = *pos;
    let n = match read_u64(buf, pos) {
        Some(v) => v,
        None => {
            return None;
        },
    };
    let ghost p4 = *pos;
    proof {
        assert forall|d: AccountDiff, rest: Seq<u8>|
            diff_encodable(d) && buf@.skip(p0 as int) == #[trigger] (enc_diff(d) + rest)
            implies buf@.skip(p4 as int) == enc_pairs(d.storage@) + (enc_bool(d.reset_storage) + (
        enc_bool(d.deleted) + rest)) by {
            lemma_le_bytes_len((d.storage@.len() as u64) as nat, 8);
            lemma_skip_concat(
                buf@,
                p3 as int,
                enc_u64(d.storage@.len() as u64),
                enc_pairs(d.storage@) + (enc_bool(d.reset_storage) + (enc_bool(d.deleted)
                    + rest)),
            );
        }
    }
    let storage = match read_pairs(buf, pos, n) {
        Some(p) => p,
        None => {
            return None;
        },
    };
    let ghost p5 = *pos;
    let reset_storage = match read_bool(buf, pos) {
        Some(b) => b,
        None => {
            return None;
        },
    };
    let ghost p6 = *pos;
    let deleted = match read_bool(buf, pos) {
        Some(b) => b,
        None => {
            return None;
        },
    };
    let d = AccountDiff { nonce, balance, code, storage, reset_storage, deleted };
    proof {
        assert(p0 <= p1 <= p2 <= p3 <= p4 <= p5 <= p6 <= *pos);
        assert(buf@.subrange(p0 as int, *pos as int) =~= (((((buf@.subrange(p0 as int, p1 as int)
            + buf@.subrange(p1 as int, p2 as int)) + buf@.subrange(p2 as int, p3 as int))
            + buf@.subrange(p3 as int, p4 as int)) + buf@.subrange(p4 as int, p5 as int))
            + buf@.subrange(p5 as int, p6 as int)) + buf@.subrange(p6 as int, *pos as int));
        assert(buf@.subrange(p0 as int, *pos as int) =~= enc_diff(d)) by {
            assert(d.storage@.len() == n as nat);
            assert(enc_u64(d.storage@.len() as u64) == buf@.subrange(p3 as int, p4 as int));
        }
    }
    Some(d)
}

/// Reads a counted list of entries.
fn read_entries(buf: &Vec<u8>, pos: &mut usize, n: u64) -> (r: Option<Vec<LayerEntry>>)
    requires
        *old(pos) <= buf@.len(),
    ensures
        *final(pos) <= buf@.len(),
        r matches Some(es) ==> forall|i: int|
            0 <= i < es@.len() ==> (#[trigger] es@[i]).address.wf(),
{
    let mut es: Vec<LayerEntry> = Vec::new();
    let mut i: u64 = 0;
    while i < n
        invariant
            *pos <= buf@.len(),
            forall|j: int| 0 <= j < es@.len() ==> (#[trigger] es@[j]).address.wf(),
        decreases n - i,
    {
        let address = match read_addr(buf, pos) {
            Some(a) => a,
            None => {
                return None;
            },
        };
        let diff = match read_diff(buf, pos) {
            Some(d) => d,
            None => {
                return None;
            },
        };
        es.push(LayerEntry { address, diff });
        i += 1;
    }
    Some(es)
}

/// Reads a counted list of topics.
fn read_topics(buf: &Vec<u8>, pos: &mut usize, n: u64) -> (r: Option<Vec<Vec<u8>>>)
    requires
        *old(pos) <= buf@.len(),
    ensures
        *final(pos) <= buf@.len(),
{
    let mut ts: Vec<Vec<u8>> = Vec::new();
    let mut i: u64 = 0;
    while i < n
        invariant
            *pos <= buf@.len(),
        decreases n - i,
    {
        match read_bytes(buf, pos) {
            Some(b) => ts.push(b),
            None => {
                return None;
            },
        }
        i += 1;
    }
    Some(ts)
}

/// Reads a counted list of logs.
fn read_logs(buf: &Vec<u8>, pos: &mut usize, n: u64) -> (r: Option<Vec<LogEntry>>)
    requires
        *old(pos) <= buf@.len(),
    ensures
        *final(pos) <= buf@.len(),
        r matches Some(ls) ==> forall|i: int|
            0 <= i < ls@.len() ==> (#[trigger] ls@[i]).address.wf(),
{
    let mut ls: Vec<LogEntry> = Vec::new();
    let mut i: u64 = 0;
    while i < n
        invariant
            *pos <= buf@.len(),
            forall|j: int| 0 <= j < ls@.len() ==> (#[trigger] ls@[j]).address.wf(),
        decreases n - i,
    {
        let address = match read_addr(buf, pos) {
            Some(a) => a,
            None => {
                return None;
            },
        };
        let nt = match read_u64(buf, pos) {
            Some(v) => v,
            None => {
                return None;
            },
        };
        let topics = match read_topics(buf, pos, nt) {
            Some(t) => t,
            None => {
                return None;
            },
        };
        let data = match read_bytes(buf, pos) {
            Some(b) => b,
            None => {
                return None;
            },
        };
        ls.push(LogEntry { address, topics, data });
        i += 1;
    }
    Some(ls)
}

/// Reads a counted list of layers.
fn read_layers(buf: &Vec<u8>, pos: &mut usize, n: u64) -> (r: Option<Vec<Layer>>)
    requires
        *old(pos) <= buf@.len(),
    ensures
        *final(pos) <= buf@.len(),
        r matches Some(ls) ==> forall|i: int| 0 <= i < ls@.len() ==> layer_addrs_wf(
            #[trigger] ls@[i],
        ),
{
    let mut ls: Vec<Layer> = Vec::new();
    let mut i: u64 = 0;
    while i < n
        invariant
            *pos <= buf@.len(),
            forall|j: int| 0 <= j < ls@.len() ==> layer_addrs_wf(#[trigger] ls@[j]),
        decreases n - i,
    {
        let ne = match read_u64(buf, pos) {
            Some(v) => v,
            None => {
                return None;
            },
        };
        let entries = match read_entries(buf, pos, ne) {
            Some(e) => e,
            None => {
                return None;
            },
        };
        let nl = match read_u64(buf, pos) {
            Some(v) => v,
            None => {
                return None;
            },
        };
        let logs = match read_logs(buf, pos, nl) {
            Some(l) => l,
            None => {
                return None;
            },
        };
        ls.push(Layer { entries, logs });
        i += 1;
    }
    Some(ls)
}

impl Machine {
    /// Serializes the whole in-flight execution — frame stack with
    /// provenance tags and interpreter micro-state, and the substate layer
    /// stack — into the sink, replacing its contents. The backend is not
    /// stored: resuming rebinds a freshly supplied one.
    pub fn save_into(&self, storage: &mut Vec<u8>)
        ensures
            final(storage)@ == enc_machine(self.frames@, self.executor.state.layers@),
            machine_encodable(self.frames@, self.executor.state.layers@),
    {
        storage.truncate(0);
        proof {
            assert(storage@ =~= Seq::<u8>::empty());
        }
        write_machine(storage, &self.frames, &self.executor.state.layers);
        proof {
            assert(Seq::<u8>::empty() + enc_machine(self.frames@, self.executor.state.layers@)
                =~= enc_machine(self.frames@, self.executor.state.layers@));
        }
    }

    /// Reconstructs a suspended machine from a stored blob over a freshly
    /// supplied backend, under the standard rules. Only a blob that is
    /// byte-for-byte the serialization of the returned machine is
    /// accepted: the body re-encodes what it parsed and compares. Together
    /// with `lemma_machine_encoding_injective`, a machine restored from
    /// `save_into`'s output carries exactly the persisted frames and
    /// layers.
    pub fn restore(storage: &Vec<u8>, backend: Backend) -> (r: Option<Machine>)
        requires
            crate::substate::backend_wf(&backend),
        ensures
            r matches Some(m) ==> {
                &&& m.wf_base()
                &&& m.active()
                &&& m.frames@.len() >= 1
                &&& m.executor.state.backend == backend
                &&& m.executor.config == Config::standard_spec()
                &&& storage@ == enc_machine(m.frames@, m.executor.state.layers@)
                &&& machine_encodable(m.frames@, m.executor.state.layers@)
            },
    {
        let mut pos: usize = 0;
        let nf = match read_u64(storage, &mut pos) {
            Some(v) => v,
            None => {
                return None;
            },
        };
        let frames = match read_frames(storage, &mut pos, nf) {
            Some(f) => f,
            None => {
                return None;
            },
        };
        let nl = match read_u64(storage, &mut pos) {
            Some(v) => v,
            None => {
                return None;
            },
        };
        let layers = match read_layers(storage, &mut pos, nl) {
            Some(l) => l,
            None => {
                return None;
            },
        };
        if frames.len() == 0 || layers.len() == 0 || layers.len() - 1 != frames.len() {
            return None;
        }
        let mut again: Vec<u8> = Vec::new();
        write_machine(&mut again, &frames, &layers);
        proof {
            assert(Seq::<u8>::empty() + enc_machine(frames@, layers@) =~= enc_machine(
                frames@,
                layers@,
            ));
        }
        if !crate::bytes::eq_bytes(&again, storage) {
            return None;
        }
        let state = ExecutorState { backend, layers };
        let executor = Executor { state, config: Config::standard() };
        Some(Machine { executor, frames })
    }
}

/// Two encodings of integers followed by anything agree piecewise.
pub proof fn lemma_cancel_u64(v1: u64, r1: Seq<u8>, v2: u64, r2: Seq<u8>)
    requires
        enc_u64(v1) + r1 == enc_u64(v2) + r2,
    ensures
        v1 == v2,
        r1 == r2,
{
    reveal_with_fuel(pow256, 9);
    lemma_le_bytes_len(v1 as nat, 8);
    lemma_le_bytes_len(v2 as nat, 8);
    assert(enc_u64(v1) =~= (enc_u64(v1) + r1).subrange(0, 8));
    assert(enc_u64(v2) =~= (enc_u64(v2) + r2).subrange(0, 8));
    lemma_le_roundtrip(v1 as nat, 8);
    lemma_le_roundtrip(v2 as nat, 8);
    assert(r1 =~= (enc_u64(v1) + r1).skip(8));
    assert(r2 =~= (enc_u64(v2) + r2).skip(8));
}

/// Two encodings of byte strings followed by anything agree piecewise.
pub proof fn lemma_cancel_bytes(s1: Seq<u8>, r1: Seq<u8>, s2: Seq<u8>, r2: Seq<u8>)
    requires
        len_ok(s1.len()),
        len_ok(s2.len()),
        enc_bytes(s1) + r1 == enc_bytes(s2) + r2,
    ensures
        s1 == s2,
        r1 == r2,
{
    reveal_with_fuel(pow256, 9);
    assert(le_bytes(s1.len(), 8) =~= enc_u64(s1.len() as u64));
    assert(le_bytes(s2.len(), 8) =~= enc_u64(s2.len() as u64));
    assert(enc_bytes(s1) + r1 =~= enc_u64(s1.len() as u64) + (s1 + r1));
    assert(enc_bytes(s2) + r2 =~= enc_u64(s2.len() as u64) + (s2 + r2));
    lemma_cancel_u64(s1.len() as u64, s1 + r1, s2.len() as u64, s2 + r2);
    assert(s1.len() == s2.len());
    assert(s1 =~= (s1 + r1).subrange(0, s1.len() as int));
    assert(s2 =~= (s2 + r2).subrange(0, s2.len() as int));
    assert(r1 =~= (s1 + r1).skip(s1.len() as int));
    assert(r2 =~= (s2 + r2).skip(s2.len() as int));
}

/// Two encodings of optional integers followed by anything agree.
pub proof fn lemma_cancel_opt_u64(o1: Option<u64>, r1: Seq<u8>, o2: Option<u64>, r2: Seq<u8>)
    requires
        enc_opt_u64(o1) + r1 == enc_opt_u64(o2) + r2,
    ensures
        o1 == o2,
        r1 == r2,
{
    let (t1, v1): (u64, u64) = match o1 {
        None => (0, 0),
        Some(v) => (1, v),
    };
    let (t2, v2): (u64, u64) = match o2 {
        None => (0, 0),
        Some(v) => (1, v),
    };
    assert(enc_opt_u64(o1) + r1 =~= enc_u64(t1) + (enc_u64(v1) + r1));
    assert(enc_opt_u64(o2) + r2 =~= enc_u64(t2) + (enc_u64(v2) + r2));
    lemma_cancel_u64(t1, enc_u64(v1) + r1, t2, enc_u64(v2) + r2);
    lemma_cancel_u64(v1, r1, v2, r2);
}

/// Two encodings of flags followed by anything agree.
pub proof fn lemma_cancel_bool(b1: bool, r1: Seq<u8>, b2: bool, r2: Seq<u8>)
    requires
        enc_bool(b1) + r1 == enc_bool(b2) + r2,
    ensures
        b1 == b2,
        r1 == r2,
{
    let t1: u64 = if b1 { 1 } else { 0 };
    let t2: u64 = if b2 { 1 } else { 0 };
    lemma_cancel_u64(t1, r1, t2, r2);
}

/// Two encodings of optional bytes followed by anything agree.
pub proof fn lemma_cancel_opt_bytes(o1: Option<Vec<u8>>, r1: Seq<u8>, o2: Option<Vec<u8>>, r2: Seq<u8>)
    requires
        (o1 matches Some(c) ==> len_ok(c@.len())),
        (o2 matches Some(c) ==> len_ok(c@.len())),
        enc_opt_bytes(o1) + r1 == enc_opt_bytes(o2) + r2,
    ensures
        o1 is Some <==> o2 is Some,
        o1 matches Some(c1) ==> (o2 matches Some(c2) && c1@ == c2@),
        r1 == r2,
{
    reveal_with_fuel(pow256, 9);
    let (t1, s1): (u64, Seq<u8>) = match o1 {
        None => (0u64, Seq::<u8>::empty()),
        Some(c) => (1u64, c@),
    };
    let (t2, s2): (u64, Seq<u8>) = match o2 {
        None => (0u64, Seq::<u8>::empty()),
        Some(c) => (1u64, c@),
    };
    assert(enc_opt_bytes(o1) + r1 =~= enc_u64(t1) + (enc_bytes(s1) + r1));
    assert(enc_opt_bytes(o2) + r2 =~= enc_u64(t2) + (enc_bytes(s2) + r2));
    lemma_cancel_u64(t1, enc_bytes(s1) + r1, t2, enc_bytes(s2) + r2);
    lemma_cancel_bytes(s1, r1, s2, r2);
}

/// Observable equality of provenance tags.
pub open spec fn kind_like(k1: CreateReason, k2: CreateReason) -> bool {
    &&& (k1 is Call <==> k2 is Call)
    &&& crate::machine::kind_target(k1) == crate::machine::kind_target(k2)
}

/// Observable equality of contexts.
pub open spec fn context_like(c1: Context, c2: Context) -> bool {
    &&& c1.address@ == c2.address@
    &&& c1.caller@ == c2.caller@
    &&& c1.apparent_value == c2.apparent_value
}

/// Observable equality of frames: every view a contract reads agrees.
pub open spec fn frame_like(f1: Frame, f2: Frame) -> bool {
    &&& kind_like(f1.kind, f2.kind)
    &&& context_like(f1.context, f2.context)
    &&& f1.code@ == f2.code@
    &&& f1.input@ == f2.input@
    &&& f1.micro@ == f2.micro@
    &&& f1.ret@ == f2.ret@
}

/// Observable equality of optional byte strings.
pub open spec fn opt_bytes_like(o1: Option<Vec<u8>>, o2: Option<Vec<u8>>) -> bool {
    &&& (o1 is Some <==> o2 is Some)
    &&& (o1 is Some ==> o1.unwrap()@ == o2.unwrap()@)
}

/// Observable equality of diffs.
pub open spec fn diff_like(d1: AccountDiff, d2: AccountDiff) -> bool {
    &&& d1.nonce == d2.nonce
    &&& d1.balance == d2.balance
    &&& opt_bytes_like(d1.code, d2.code)
    &&& d1.storage@ == d2.storage@
    &&& d1.reset_storage == d2.reset_storage
    &&& d1.deleted == d2.deleted
}

/// Observable equality of layer entries.
pub open spec fn entry_like(e1: LayerEntry, e2: LayerEntry) -> bool {
    &&& e1.address@ == e2.address@
    &&& diff_like(e1.diff, e2.diff)
}

/// Observable equality of log records.
pub open spec fn log_like(l1: LogEntry, l2: LogEntry) -> bool {
    &&& l1.address@ == l2.address@
    &&& l1.topics@.len() == l2.topics@.len()
    &&& forall|i: int| 0 <= i < l1.topics@.len() ==> (#[trigger] l1.topics@[i])@ == l2.topics@[i]@
    &&& l1.data@ == l2.data@
}

/// Observable equality of layers.
pub open spec fn layer_like(l1: Layer, l2: Layer) -> bool {
    &&& l1.entries@.len() == l2.entries@.len()
    &&& forall|i: int|
        0 <= i < l1.entries@.len() ==> entry_like(
            #[trigger] l1.entries@[i],
            l2.entries@[i],
        )
    &&& l1.logs@.len() == l2.logs@.len()
    &&& forall|i: int| 0 <= i < l1.logs@.len() ==> log_like(#[trigger] l1.logs@[i], l2.logs@[i])
}

/// Observable equality of whole suspended machines.
pub open spec fn stacks_like(fs1: Seq<Frame>, ls1: Seq<Layer>, fs2: Seq<Frame>, ls2: Seq<Layer>) -> bool {
    &&& fs1.len() == fs2.len()
    &&& forall|i: int| 0 <= i < fs1.len() ==> frame_like(#[trigger] fs1[i], fs2[i])
    &&& ls1.len() == ls2.len()
    &&& forall|i: int| 0 <= i < ls1.len() ==> layer_like(#[trigger] ls1[i], ls2[i])
}

/// Two encodings of provenance tags followed by anything agree.
pub proof fn lemma_cancel_kind(k1: CreateReason, r1: Seq<u8>, k2: CreateReason, r2: Seq<u8>)
    requires
        (k1 matches CreateReason::Create(a) ==> len_ok(a@.len())),
        (k2 matches CreateReason::Create(a) ==> len_ok(a@.len())),
        enc_kind(k1) + r1 == enc_kind(k2) + r2,
    ensures
        kind_like(k1, k2),
        r1 == r2,
{
    reveal_with_fuel(pow256, 9);
    let (t1, s1): (u64, Seq<u8>) = match k1 {
        CreateReason::Call => (0u64, Seq::<u8>::empty()),
        CreateReason::Create(a) => (1u64, a@),
    };
    let (t2, s2): (u64, Seq<u8>) = match k2 {
        CreateReason::Call => (0u64, Seq::<u8>::empty()),
        CreateReason::Create(a) => (1u64, a@),
    };
    assert(enc_kind(k1) + r1 =~= enc_u64(t1) + (enc_bytes(s1) + r1));
    assert(enc_kind(k2) + r2 =~= enc_u64(t2) + (enc_bytes(s2) + r2));
    lemma_cancel_u64(t1, enc_bytes(s1) + r1, t2, enc_bytes(s2) + r2);
    lemma_cancel_bytes(s1, r1, s2, r2);
}

/// Two encodings of contexts followed by anything agree piecewise.
pub proof fn lemma_cancel_context(c1: Context, r1: Seq<u8>, c2: Context, r2: Seq<u8>)
    requires
        len_ok(c1.address@.len()),
        len_ok(c1.caller@.len()),
        len_ok(c2.address@.len()),
        len_ok(c2.caller@.len()),
        enc_context(c1) + r1 == enc_context(c2) + r2,
    ensures
        context_like(c1, c2),
        r1 == r2,
{
    assert(enc_context(c1) + r1 =~= enc_bytes(c1.address@) + (enc_bytes(c1.caller@) + (enc_u64(
        c1.apparent_value,
    ) + r1)));
    assert(enc_context(c2) + r2 =~= enc_bytes(c2.address@) + (enc_bytes(c2.caller@) + (enc_u64(
        c2.apparent_value,
    ) + r2)));
    lemma_cancel_bytes(
        c1.address@,
        enc_bytes(c1.caller@) + (enc_u64(c1.apparent_value) + r1),
        c2.address@,
        enc_bytes(c2.caller@) + (enc_u64(c2.apparent_value) + r2),
    );
    lemma_cancel_bytes(
        c1.caller@,
        enc_u64(c1.apparent_value) + r1,
        c2.caller@,
        enc_u64(c2.apparent_value) + r2,
    );
    lemma_cancel_u64(c1.apparent_value, r1, c2.apparent_value, r2);
}

/// Two encodings of frames followed by anything agree observably.
#[verifier::rlimit(100)]
pub proof fn lemma_cancel_frame(f1: Frame, r1: Seq<u8>, f2: Frame, r2: Seq<u8>)
    requires
        frame_encodable(f1),
        frame_encodable(f2),
        enc_frame(f1) + r1 == enc_frame(f2) + r2,
    ensures
        frame_like(f1, f2),
        r1 == r2,
{
    let t1 = enc_context(f1.context) + (enc_bytes(f1.code@) + (enc_bytes(f1.input@) + (enc_bytes(
        f1.micro@,
    ) + (enc_bytes(f1.ret@) + r1))));
    let t2 = enc_context(f2.context) + (enc_bytes(f2.code@) + (enc_bytes(f2.input@) + (enc_bytes(
        f2.micro@,
    ) + (enc_bytes(f2.ret@) + r2))));
    assert(enc_frame(f1) + r1 =~= enc_kind(f1.kind) + t1);
    assert(enc_frame(f2) + r2 =~= enc_kind(f2.kind) + t2);
    lemma_cancel_kind(f1.kind, t1, f2.kind, t2);
    lemma_cancel_context(
        f1.context,
        enc_bytes(f1.code@) + (enc_bytes(f1.input@) + (enc_bytes(f1.micro@) + (enc_bytes(f1.ret@)
            + r1))),
        f2.context,
        enc_bytes(f2.code@) + (enc_bytes(f2.input@) + (enc_bytes(f2.micro@) + (enc_bytes(f2.ret@)
            + r2))),
    );
    lemma_cancel_bytes(
        f1.code@,
        enc_bytes(f1.input@) + (enc_bytes(f1.micro@) + (enc_bytes(f1.ret@) + r1)),
        f2.code@,
        enc_bytes(f2.input@) + (enc_bytes(f2.micro@) + (enc_bytes(f2.ret@) + r2)),
    );
    lemma_cancel_bytes(
        f1.input@,
        enc_bytes(f1.micro@) + (enc_bytes(f1.ret@) + r1),
        f2.input@,
        enc_bytes(f2.micro@) + (enc_bytes(f2.ret@) + r2),
    );
    lemma_cancel_bytes(f1.micro@, enc_bytes(f1.ret@) + r1, f2.micro@, enc_bytes(f2.ret@) + r2);
    lemma_cancel_bytes(f1.ret@, r1, f2.ret@, r2);
}

/// Two encodings of frame lists of one length agree observably.
#[verifier::rlimit(100)]
#[verifier::spinoff_prover]
pub proof fn lemma_cancel_frames(fs1: Seq<Frame>, r1: Seq<u8>, fs2: Seq<Frame>, r2: Seq<u8>)
    requires
        fs1.len() == fs2.len(),
        forall|i: int| 0 <= i < fs1.len() ==> frame_encodable(#[trigger] fs1[i]),
        forall|i: int| 0 <= i < fs2.len() ==> frame_encodable(#[trigger] fs2[i]),
        enc_frames(fs1) + r1 == enc_frames(fs2) + r2,
    ensures
        forall|i: int| 0 <= i < fs1.len() ==> frame_like(#[trigger] fs1[i], fs2[i]),
        r1 == r2,
    decreases fs1.len(),
{
    if fs1.len() == 0 {
        assert(enc_frames(fs1) =~= Seq::<u8>::empty());
        assert(enc_frames(fs2) =~= Seq::<u8>::empty());
        assert(r1 =~= enc_frames(fs1) + r1);
        assert(r2 =~= enc_frames(fs2) + r2);
    } else {
        assert(enc_frames(fs1) + r1 =~= enc_frame(fs1[0]) + (enc_frames(fs1.drop_first()) + r1));
        assert(enc_frames(fs2) + r2 =~= enc_frame(fs2[0]) + (enc_frames(fs2.drop_first()) + r2));
        lemma_cancel_frame(
            fs1[0],
            enc_frames(fs1.drop_first()) + r1,
            fs2[0],
            enc_frames(fs2.drop_first()) + r2,
        );
        assert(forall|i: int|
            0 <= i < fs1.drop_first().len() ==> frame_encodable(#[trigger] fs1.drop_first()[i]));
        assert(forall|i: int|
            0 <= i < fs2.drop_first().len() ==> frame_encodable(#[trigger] fs2.drop_first()[i]));
        lemma_cancel_frames(fs1.drop_first(), r1, fs2.drop_first(), r2);
        assert forall|i: int| 0 <= i < fs1.len() implies frame_like(
            #[trigger] fs1[i],
            fs2[i],
        ) by {
            if i > 0 {
                assert(fs1.drop_first()[i - 1] == fs1[i]);
                assert(fs2.drop_first()[i - 1] == fs2[i]);
                assert(frame_like(fs1.drop_first()[i - 1], fs2.drop_first()[i - 1]));
            }
        }
    }
}

/// Two encodings of storage-write lists of one length agree.
pub proof fn lemma_cancel_pairs(ps1: Seq<(u64, u64)>, r1: Seq<u8>, ps2: Seq<(u64, u64)>, r2: Seq<u8>)
    requires
        ps1.len() == ps2.len(),
        enc_pairs(ps1) + r1 == enc_pairs(ps2) + r2,
    ensures
        ps1 == ps2,
        r1 == r2,
    decreases ps1.len(),
{
    if ps1.len() == 0 {
        assert(enc_pairs(ps1) =~= Seq::<u8>::empty());
        assert(enc_pairs(ps2) =~= Seq::<u8>::empty());
        assert(r1 =~= enc_pairs(ps1) + r1);
        assert(r2 =~= enc_pairs(ps2) + r2);
        assert(ps1 =~= ps2);
    } else {
        assert(enc_pairs(ps1) + r1 =~= enc_u64(ps1[0].0) + (enc_u64(ps1[0].1) + (enc_pairs(
            ps1.drop_first(),
        ) + r1)));
        assert(enc_pairs(ps2) + r2 =~= enc_u64(ps2[0].0) + (enc_u64(ps2[0].1) + (enc_pairs(
            ps2.drop_first(),
        ) + r2)));
        lemma_cancel_u64(
            ps1[0].0,
            enc_u64(ps1[0].1) + (enc_pairs(ps1.drop_first()) + r1),
            ps2[0].0,
            enc_u64(ps2[0].1) + (enc_pairs(ps2.drop_first()) + r2),
        );
        lemma_cancel_u64(
            ps1[0].1,
            enc_pairs(ps1.drop_first()) + r1,
            ps2[0].1,
            enc_pairs(ps2.drop_first()) + r2,
        );
        lemma_cancel_pairs(ps1.drop_first(), r1, ps2.drop_first(), r2);
        assert(ps1 =~= seq![ps1[0]] + ps1.drop_first());
        assert(ps2 =~= seq![ps2[0]] + ps2.drop_first());
    }
}

/// Equal wire integers of bounded lengths are equal lengths.
pub proof fn lemma_len_cast(n1: nat, n2: nat)
    requires
        len_ok(n1),
        len_ok(n2),
        n1 as u64 == n2 as u64,
    ensures
        n1 == n2,
{
    reveal_with_fuel(pow256, 9);
}

/// Two encodings of diffs followed by anything agree observably.
#[verifier::rlimit(100)]
#[verifier::spinoff_prover]
pub proof fn lemma_cancel_diff(d1: AccountDiff, r1: Seq<u8>, d2: AccountDiff, r2: Seq<u8>)
    requires
        diff_encodable(d1),
        diff_encodable(d2),
        enc_diff(d1) + r1 == enc_diff(d2) + r2,
    ensures
        diff_like(d1, d2),
        r1 == r2,
{
    let u1 = enc_bool(d1.deleted) + r1;
    let v1 = enc_bool(d1.reset_storage) + u1;
    let w1 = enc_pairs(d1.storage@) + v1;
    let x1 = enc_u64(d1.storage@.len() as u64) + w1;
    let y1 = enc_opt_bytes(d1.code) + x1;
    let z1 = enc_opt_u64(d1.balance) + y1;
    let u2 = enc_bool(d2.deleted) + r2;
    let v2 = enc_bool(d2.reset_storage) + u2;
    let w2 = enc_pairs(d2.storage@) + v2;
    let x2 = enc_u64(d2.storage@.len() as u64) + w2;
    let y2 = enc_opt_bytes(d2.code) + x2;
    let z2 = enc_opt_u64(d2.balance) + y2;
    lemma_diff_flat(d1, r1);
    lemma_diff_flat(d2, r2);
    lemma_cancel_opt_u64(d1.nonce, z1, d2.nonce, z2);
    lemma_cancel_opt_u64(d1.balance, y1, d2.balance, y2);
    lemma_cancel_opt_bytes(d1.code, x1, d2.code, x2);
    lemma_cancel_u64(d1.storage@.len() as u64, w1, d2.storage@.len() as u64, w2);
    lemma_len_cast(d1.storage@.len(), d2.storage@.len());
    lemma_cancel_pairs(d1.storage@, v1, d2.storage@, v2);
    lemma_cancel_bool(d1.reset_storage, u1, d2.reset_storage, u2);
    lemma_cancel_bool(d1.deleted, r1, d2.deleted, r2);
}

/// A diff's wire form before a tail, re-grouped head first.
proof fn lemma_diff_flat(d: AccountDiff, r: Seq<u8>)
    ensures
        enc_diff(d) + r == enc_opt_u64(d.nonce) + (enc_opt_u64(d.balance) + (enc_opt_bytes(d.code)
            + (enc_u64(d.storage@.len() as u64) + (enc_pairs(d.storage@) + (enc_bool(
            d.reset_storage,
        ) + (enc_bool(d.deleted) + r)))))),
{
    let a = enc_opt_u64(d.nonce);
    let b = enc_opt_u64(d.balance);
    let c = enc_opt_bytes(d.code);
    let n = enc_u64(d.storage@.len() as u64);
    let p = enc_pairs(d.storage@);
    let q = enc_bool(d.reset_storage);
    let g = enc_bool(d.deleted);
    vstd::seq_lib::lemma_concat_associative(a + b + c + n + p + q, g, r);
    vstd::seq_lib::lemma_concat_associative(a + b + c + n + p, q, g + r);
    vstd::seq_lib::lemma_concat_associative(a + b + c + n, p, q + (g + r));
    vstd::seq_lib::lemma_concat_associative(a + b + c, n, p + (q + (g + r)));
    vstd::seq_lib::lemma_concat_associative(a + b, c, n + (p + (q + (g + r))));
    vstd::seq_lib::lemma_concat_associative(a, b, c + (n + (p + (q + (g + r)))));
}

/// Two encodings of entry lists of one length agree observably.
#[verifier::rlimit(100)]
#[verifier::spinoff_prover]
pub proof fn lemma_cancel_entries(es1: Seq<LayerEntry>, r1: Seq<u8>, es2: Seq<LayerEntry>, r2: Seq<u8>)
    requires
        es1.len() == es2.len(),
        forall|i: int| 0 <= i < es1.len() ==> entry_encodable(#[trigger] es1[i]),
        forall|i: int| 0 <= i < es2.len() ==> entry_encodable(#[trigger] es2[i]),
        enc_entries(es1) + r1 == enc_entries(es2) + r2,
    ensures
        forall|i: int| 0 <= i < es1.len() ==> entry_like(#[trigger] es1[i], es2[i]),
        r1 == r2,
    decreases es1.len(),
{
    if es1.len() == 0 {
        assert(enc_entries(es1) =~= Seq::<u8>::empty());
        assert(enc_entries(es2) =~= Seq::<u8>::empty());
        assert(r1 =~= enc_entries(es1) + r1);
        assert(r2 =~= enc_entries(es2) + r2);
    } else {
        assert(enc_entries(es1) + r1 =~= enc_bytes(es1[0].address@) + (enc_diff(es1[0].diff)
            + (enc_entries(es1.drop_first()) + r1)));
        assert(enc_entries(es2) + r2 =~= enc_bytes(es2[0].address@) + (enc_diff(es2[0].diff)
            + (enc_entries(es2.drop_first()) + r2)));
        lemma_cancel_bytes(
            es1[0].address@,
            enc_diff(es1[0].diff) + (enc_entries(es1.drop_first()) + r1),
            es2[0].address@,
            enc_diff(es2[0].diff) + (enc_entries(es2.drop_first()) + r2),
        );
        lemma_cancel_diff(
            es1[0].diff,
            enc_entries(es1.drop_first()) + r1,
            es2[0].diff,
            enc_entries(es2.drop_first()) + r2,
        );
        assert(forall|i: int|
            0 <= i < es1.drop_first().len() ==> entry_encodable(#[trigger] es1.drop_first()[i]));
        assert(forall|i: int|
            0 <= i < es2.drop_first().len() ==> entry_encodable(#[trigger] es2.drop_first()[i]));
        lemma_cancel_entries(es1.drop_first(), r1, es2.drop_first(), r2);
        assert forall|i: int| 0 <= i < es1.len() implies entry_like(
            #[trigger] es1[i],
            es2[i],
        ) by {
            if i > 0 {
                assert(es1.drop_first()[i - 1] == es1[i]);
                assert(es2.drop_first()[i - 1] == es2[i]);
                assert(entry_like(es1.drop_first()[i - 1], es2.drop_first()[i - 1]));
            }
        }
    }
}

/// Two encodings of topic lists of one length agree observably.
pub proof fn lemma_cancel_topics(ts1: Seq<Vec<u8>>, r1: Seq<u8>, ts2: Seq<Vec<u8>>, r2: Seq<u8>)
    requires
        ts1.len() == ts2.len(),
        forall|i: int| 0 <= i < ts1.len() ==> len_ok((#[trigger] ts1[i])@.len()),
        forall|i: int| 0 <= i < ts2.len() ==> len_ok((#[trigger] ts2[i])@.len()),
        enc_topics(ts1) + r1 == enc_topics(ts2) + r2,
    ensures
        forall|i: int| 0 <= i < ts1.len() ==> (#[trigger] ts1[i])@ == ts2[i]@,
        r1 == r2,
    decreases ts1.len(),
{
    if ts1.len() == 0 {
        assert(enc_topics(ts1) =~= Seq::<u8>::empty());
        assert(enc_topics(ts2) =~= Seq::<u8>::empty());
        assert(r1 =~= enc_topics(ts1) + r1);
        assert(r2 =~= enc_topics(ts2) + r2);
    } else {
        assert(enc_topics(ts1) + r1 =~= enc_bytes(ts1[0]@) + (enc_topics(ts1.drop_first()) + r1));
        assert(enc_topics(ts2) + r2 =~= enc_bytes(ts2[0]@) + (enc_topics(ts2.drop_first()) + r2));
        lemma_cancel_bytes(
            ts1[0]@,
            enc_topics(ts1.drop_first()) + r1,
            ts2[0]@,
            enc_topics(ts2.drop_first()) + r2,
        );
        assert(forall|i: int|
            0 <= i < ts1.drop_first().len() ==> len_ok((#[trigger] ts1.drop_first()[i])@.len()));
        assert(forall|i: int|
            0 <= i < ts2.drop_first().len() ==> len_ok((#[trigger] ts2.drop_first()[i])@.len()));
        lemma_cancel_topics(ts1.drop_first(), r1, ts2.drop_first(), r2);
        assert forall|i: int| 0 <= i < ts1.len() implies (#[trigger] ts1[i])@ == ts2[i]@ by {
            if i > 0 {
                assert(ts1.drop_first()[i - 1] == ts1[i]);
                assert(ts2.drop_first()[i - 1] == ts2[i]);
                assert(ts1.drop_first()[i - 1]@ == ts2.drop_first()[i - 1]@);
            }
        }
    }
}

/// Two encodings of log records followed by anything agree observably.
#[verifier::rlimit(100)]
#[verifier::spinoff_prover]
pub proof fn lemma_cancel_log(l1: LogEntry, r1: Seq<u8>, l2: LogEntry, r2: Seq<u8>)
    requires
        log_encodable(l1),
        log_encodable(l2),
        enc_log(l1) + r1 == enc_log(l2) + r2,
    ensures
        log_like(l1, l2),
        r1 == r2,
{
    reveal_with_fuel(pow256, 9);
    assert(enc_log(l1) + r1 =~= enc_bytes(l1.address@) + (enc_u64(l1.topics@.len() as u64)
        + (enc_topics(l1.topics@) + (enc_bytes(l1.data@) + r1))));
    assert(enc_log(l2) + r2 =~= enc_bytes(l2.address@) + (enc_u64(l2.topics@.len() as u64)
        + (enc_topics(l2.topics@) + (enc_bytes(l2.data@) + r2))));
    lemma_cancel_bytes(
        l1.address@,
        enc_u64(l1.topics@.len() as u64) + (enc_topics(l1.topics@) + (enc_bytes(l1.data@) + r1)),
        l2.address@,
        enc_u64(l2.topics@.len() as u64) + (enc_topics(l2.topics@) + (enc_bytes(l2.data@) + r2)),
    );
    lemma_cancel_u64(
        l1.topics@.len() as u64,
        enc_topics(l1.topics@) + (enc_bytes(l1.data@) + r1),
        l2.topics@.len() as u64,
        enc_topics(l2.topics@) + (enc_bytes(l2.data@) + r2),
    );
    lemma_len_cast(l1.topics@.len(), l2.topics@.len());
    lemma_cancel_topics(l1.topics@, enc_bytes(l1.data@) + r1, l2.topics@, enc_bytes(l2.data@)
        + r2);
    lemma_cancel_bytes(l1.data@, r1, l2.data@, r2);
}

/// Two encodings of log lists of one length agree observably.
#[verifier::rlimit(100)]
#[verifier::spinoff_prover]
pub proof fn lemma_cancel_logs(ls1: Seq<LogEntry>, r1: Seq<u8>, ls2: Seq<LogEntry>, r2: Seq<u8>)
    requires
        ls1.len() == ls2.len(),
        forall|i: int| 0 <= i < ls1.len() ==> log_encodable(#[trigger] ls1[i]),
        forall|i: int| 0 <= i < ls2.len() ==> log_encodable(#[trigger] ls2[i]),
        enc_logs(ls1) + r1 == enc_logs(ls2) + r2,
    ensures
        forall|i: int| 0 <= i < ls1.len() ==> log_like(#[trigger] ls1[i], ls2[i]),
        r1 == r2,
    decreases ls1.len(),
{
    if ls1.len() == 0 {
        assert(enc_logs(ls1) =~= Seq::<u8>::empty());
        assert(enc_logs(ls2) =~= Seq::<u8>::empty());
        assert(r1 =~= enc_logs(ls1) + r1);
        assert(r2 =~= enc_logs(ls2) + r2);
    } else {
        assert(enc_logs(ls1) + r1 =~= enc_log(ls1[0]) + (enc_logs(ls1.drop_first()) + r1));
        assert(enc_logs(ls2) + r2 =~= enc_log(ls2[0]) + (enc_logs(ls2.drop_first()) + r2));
        lemma_cancel_log(ls1[0], enc_logs(ls1.drop_first()) + r1, ls2[0], enc_logs(
            ls2.drop_first(),
        ) + r2);
        assert(forall|i: int|
            0 <= i < ls1.drop_first().len() ==> log_encodable(#[trigger] ls1.drop_first()[i]));
        assert(forall|i: int|
            0 <= i < ls2.drop_first().len() ==> log_encodable(#[trigger] ls2.drop_first()[i]));
        lemma_cancel_logs(ls1.drop_first(), r1, ls2.drop_first(), r2);
        assert forall|i: int| 0 <= i < ls1.len() implies log_like(#[trigger] ls1[i], ls2[i]) by {
            if i > 0 {
                assert(ls1.drop_first()[i - 1] == ls1[i]);
                assert(ls2.drop_first()[i - 1] == ls2[i]);
                assert(log_like(ls1.drop_first()[i - 1], ls2.drop_first()[i - 1]));
            }
        }
    }
}

/// Two encodings of layers followed by anything agree observably.
#[verifier::rlimit(100)]
#[verifier::spinoff_prover]
pub proof fn lemma_cancel_layer(l1: Layer, r1: Seq<u8>, l2: Layer, r2: Seq<u8>)
    requires
        layer_encodable(l1),
        layer_encodable(l2),
        enc_layer(l1) + r1 == enc_layer(l2) + r2,
    ensures
        layer_like(l1, l2),
        r1 == r2,
{
    assert(enc_layer(l1) + r1 =~= enc_u64(l1.entries@.len() as u64) + (enc_entries(l1.entries@)
        + (enc_u64(l1.logs@.len() as u64) + (enc_logs(l1.logs@) + r1))));
    assert(enc_layer(l2) + r2 =~= enc_u64(l2.entries@.len() as u64) + (enc_entries(l2.entries@)
        + (enc_u64(l2.logs@.len() as u64) + (enc_logs(l2.logs@) + r2))));
    lemma_cancel_u64(
        l1.entries@.len() as u64,
        enc_entries(l1.entries@) + (enc_u64(l1.logs@.len() as u64) + (enc_logs(l1.logs@) + r1)),
        l2.entries@.len() as u64,
        enc_entries(l2.entries@) + (enc_u64(l2.logs@.len() as u64) + (enc_logs(l2.logs@) + r2)),
    );
    lemma_len_cast(l1.entries@.len(), l2.entries@.len());
    lemma_cancel_entries(
        l1.entries@,
        enc_u64(l1.logs@.len() as u64) + (enc_logs(l1.logs@) + r1),
        l2.entries@,
        enc_u64(l2.logs@.len() as u64) + (enc_logs(l2.logs@) + r2),
    );
    lemma_cancel_u64(
        l1.logs@.len() as u64,
        enc_logs(l1.logs@) + r1,
        l2.logs@.len() as u64,
        enc_logs(l2.logs@) + r2,
    );
    lemma_len_cast(l1.logs@.len(), l2.logs@.len());
    lemma_cancel_logs(l1.logs@, r1, l2.logs@, r2);
}

/// Two encodings of layer lists of one length agree observably.
#[verifier::rlimit(100)]
#[verifier::spinoff_prover]
pub proof fn lemma_cancel_layers(ls1: Seq<Layer>, r1: Seq<u8>, ls2: Seq<Layer>, r2: Seq<u8>)
    requires
        ls1.len() == ls2.len(),
        forall|i: int| 0 <= i < ls1.len() ==> layer_encodable(#[trigger] ls1[i]),
        forall|i: int| 0 <= i < ls2.len() ==> layer_encodable(#[trigger] ls2[i]),
        enc_layers(ls1) + r1 == enc_layers(ls2) + r2,
    ensures
        forall|i: int| 0 <= i < ls1.len() ==> layer_like(#[trigger] ls1[i], ls2[i]),
        r1 == r2,
    decreases ls1.len(),
{
    if ls1.len() == 0 {
        assert(enc_layers(ls1) =~= Seq::<u8>::empty());
        assert(enc_layers(ls2) =~= Seq::<u8>::empty());
        assert(r1 =~= enc_layers(ls1) + r1);
        assert(r2 =~= enc_layers(ls2) + r2);
    } else {
        assert(enc_layers(ls1) + r1 =~= enc_layer(ls1[0]) + (enc_layers(ls1.drop_first()) + r1));
        assert(enc_layers(ls2) + r2 =~= enc_layer(ls2[0]) + (enc_layers(ls2.drop_first()) + r2));
        lemma_cancel_layer(ls1[0], enc_layers(ls1.drop_first()) + r1, ls2[0], enc_layers(
            ls2.drop_first(),
        ) + r2);
        assert(forall|i: int|
            0 <= i < ls1.drop_first().len() ==> layer_encodable(#[trigger] ls1.drop_first()[i]));
        assert(forall|i: int|
            0 <= i < ls2.drop_first().len() ==> layer_encodable(#[trigger] ls2.drop_first()[i]));
        lemma_cancel_layers(ls1.drop_first(), r1, ls2.drop_first(), r2);
        assert forall|i: int| 0 <= i < ls1.len() implies layer_like(
            #[trigger] ls1[i],
            ls2[i],
        ) by {
            if i > 0 {
                assert(ls1.drop_first()[i - 1] == ls1[i]);
                assert(ls2.drop_first()[i - 1] == ls2[i]);
                assert(layer_like(ls1.drop_first()[i - 1], ls2.drop_first()[i - 1]));
            }
        }
    }
}

/// The law of exact resumption: two suspended machines with one stored
/// form carry observably identical frame and layer stacks. With
/// `save_into` and `restore`, a machine reconstructed from a persisted
/// blob is the persisted machine in every respect a contract can read, so
/// continuing it behaves exactly as continuing the original.
#[verifier::rlimit(100)]
#[verifier::spinoff_prover]
pub proof fn lemma_machine_encoding_injective(fs1: Seq<Frame>, ls1: Seq<Layer>, fs2: Seq<Frame>, ls2: Seq<Layer>)
    requires
        machine_encodable(fs1, ls1),
        machine_encodable(fs2, ls2),
        enc_machine(fs1, ls1) == enc_machine(fs2, ls2),
    ensures
        stacks_like(fs1, ls1, fs2, ls2),
{
    reveal_with_fuel(pow256, 9);
    let e = Seq::<u8>::empty();
    assert(enc_machine(fs1, ls1) + e =~= enc_u64(fs1.len() as u64) + (enc_frames(fs1) + (enc_u64(
        ls1.len() as u64,
    ) + (enc_layers(ls1) + e))));
    assert(enc_machine(fs2, ls2) + e =~= enc_u64(fs2.len() as u64) + (enc_frames(fs2) + (enc_u64(
        ls2.len() as u64,
    ) + (enc_layers(ls2) + e))));
    assert(enc_machine(fs1, ls1) + e =~= enc_machine(fs2, ls2) + e);
    lemma_cancel_u64(
        fs1.len() as u64,
        enc_frames(fs1) + (enc_u64(ls1.len() as u64) + (enc_layers(ls1) + e)),
        fs2.len() as u64,
        enc_frames(fs2) + (enc_u64(ls2.len() as u64) + (enc_layers(ls2) + e)),
    );
    lemma_len_cast(fs1.len(), fs2.len());
    lemma_cancel_frames(
        fs1,
        enc_u64(ls1.len() as u64) + (enc_layers(ls1) + e),
        fs2,
        enc_u64(ls2.len() as u64) + (enc_layers(ls2) + e),
    );
    lemma_cancel_u64(ls1.len() as u64, enc_layers(ls1) + e, ls2.len() as u64, enc_layers(ls2) + e);
    lemma_len_cast(ls1.len(), ls2.len());
    lemma_cancel_layers(ls1, e, ls2, e);
}

} // verus!
