//! Snapshot codec for the time queues.
//!
//! Across an upgrade each queue is serialized to a single byte buffer and
//! restored from it afterwards.  The format is a count followed by the
//! entries in queue order, each as big-endian due-time, key length, and the
//! key's UTF-8 bytes.  The encoding is injective, so whatever a restore
//! accepts is exactly the queue that was snapshotted.

use vstd::prelude::*;
use vstd::slice::{slice_subrange, slice_to_vec};
use vstd::string::StrSliceExecFns;
use vstd::utf8::{encode_utf8, encode_utf8_decode_utf8, valid_utf8};

use crate::id::{be_bytes8, lemma_be_bytes8_inj, push_word_be};
use crate::queue::TimeQueue;

verus! {

/// Byte encoding of one entry: due-time, key length, key bytes.
pub open spec fn enc_entry(e: (u64, Seq<char>)) -> Seq<u8> {
    be_bytes8(e.0) + be_bytes8(encode_utf8(e.1).len() as u64) + encode_utf8(e.1)
}

/// Byte encoding of the entries, in order.
pub open spec fn enc_entries(q: Seq<(u64, Seq<char>)>) -> Seq<u8>
    decreases q.len(),
{
    if q.len() == 0 {
        Seq::empty()
    } else {
        enc_entry(q[0]) + enc_entries(q.drop_first())
    }
}

/// Byte encoding of a whole queue: entry count, then the entries.
pub open spec fn enc_queue(q: Seq<(u64, Seq<char>)>) -> Seq<u8> {
    be_bytes8(q.len() as u64) + enc_entries(q)
}

/// Bounds under which the length words do not wrap; they hold of every
/// queue that exists in memory.
pub open spec fn snapshot_fits(q: Seq<(u64, Seq<char>)>) -> bool {
    &&& q.len() < 0x1_0000_0000_0000_0000
    &&& forall|i: int|
        0 <= i < q.len() ==> (#[trigger] encode_utf8(q[i].1).len()) < 0x1_0000_0000_0000_0000
}

/// The buffer is the snapshot of this well-formed queue.
pub open spec fn snapshot_of(v: Seq<(u64, Seq<char>)>, b: Seq<u8>) -> bool {
    &&& crate::queue::q_sorted(v)
    &&& crate::queue::q_unique(v)
    &&& snapshot_fits(v)
    &&& v.len() <= usize::MAX
    &&& enc_queue(v) == b
}

proof fn lemma_enc_entries_single(e: (u64, Seq<char>))
    ensures
        enc_entries(seq![e]) == enc_entry(e),
{
    let s = seq![e];
    assert(s.drop_first() =~= Seq::<(u64, Seq<char>)>::empty());
    assert(enc_entries(Seq::<(u64, Seq<char>)>::empty()) == Seq::<u8>::empty());
    assert(s[0] == e);
    assert(enc_entry(e) + Seq::<u8>::empty() =~= enc_entry(e));
}

proof fn lemma_enc_entries_concat(a: Seq<(u64, Seq<char>)>, b: Seq<(u64, Seq<char>)>)
    ensures
        enc_entries(a + b) == enc_entries(a) + enc_entries(b),
    decreases a.len(),
{
    if a.len() == 0 {
        assert(a + b =~= b);
        assert(enc_entries(a) + enc_entries(b) =~= enc_entries(b));
    } else {
        assert((a + b)[0] == a[0]);
        assert((a + b).drop_first() =~= a.drop_first() + b);
        lemma_enc_entries_concat(a.drop_first(), b);
        assert(enc_entries(a + b) =~= enc_entries(a) + enc_entries(b));
    }
}

/// Reads one big-endian word.
pub fn read_word_be(b: &Vec<u8>, pos: usize) -> (r: u64)
    requires
        pos + 8 <= b@.len(),
    ensures
        be_bytes8(r) == b@.subrange(pos as int, pos as int + 8),
{
    let total = b.len();
    proof {
        assert(pos + 8 <= total);
    }
    let x0 = b[pos] as u64;
    let x1 = b[pos + 1] as u64;
    let x2 = b[pos + 2] as u64;
    let x3 = b[pos + 3] as u64;
    let x4 = b[pos + 4] as u64;
    let x5 = b[pos + 5] as u64;
    let x6 = b[pos + 6] as u64;
    let x7 = b[pos + 7] as u64;
    let r = (x0 << 56) | (x1 << 48) | (x2 << 40) | (x3 << 32) | (x4 << 24) | (x5 << 16) | (x6
        << 8) | x7;
    proof {
        assert((r >> 56u64) as u8 == x0 as u8 && (r >> 48u64) as u8 == x1 as u8 && (r >> 40u64)
            as u8 == x2 as u8 && (r >> 32u64) as u8 == x3 as u8 && (r >> 24u64) as u8 == x4 as u8
            && (r >> 16u64) as u8 == x5 as u8 && (r >> 8u64) as u8 == x6 as u8 && (r >> 0u64) as u8
            == x7 as u8) by (bit_vector)
            requires
                r == (x0 << 56) | (x1 << 48) | (x2 << 40) | (x3 << 32) | (x4 << 24) | (x5 << 16) | (
                x6 << 8) | x7,
                x0 < 256 && x1 < 256 && x2 < 256 && x3 < 256 && x4 < 256 && x5 < 256 && x6 < 256
                    && x7 < 256,
        ;
        assert(be_bytes8(r) =~= b@.subrange(pos as int, pos as int + 8));
    }
    r
}

/// Serializes a queue to one byte buffer, entry order preserved.
pub fn encode_queue(q: &TimeQueue) -> (r: Vec<u8>)
    requires
        q.wf(),
    ensures
        r@ == enc_queue(q@),
        snapshot_fits(q@),
        snapshot_of(q@, r@),
{
    let n = q.len();
    let mut out: Vec<u8> = Vec::new();
    push_word_be(&mut out, n as u64);
    proof {
        assert(out@ =~= be_bytes8(q@.len() as u64));
        assert(q@.take(0) =~= Seq::<(u64, Seq<char>)>::empty());
        assert(out@ =~= be_bytes8(q@.len() as u64) + enc_entries(q@.take(0)));
    }
    let mut i: usize = 0;
    while i < n
        invariant
            i <= n,
            n == q@.len(),
            out@ == be_bytes8(q@.len() as u64) + enc_entries(q@.take(i as int)),
            forall|k: int|
                0 <= k < i ==> (#[trigger] encode_utf8(q@[k].1).len()) < 0x1_0000_0000_0000_0000,
        decreases n - i,
    {
        let (t, id) = q.get(i);
        push_word_be(&mut out, t);
        let mut bytes = id.as_str().as_bytes_vec();
        push_word_be(&mut out, bytes.len() as u64);
        proof {
            assert(bytes@ == encode_utf8(q@[i as int].1));
        }
        out.append(&mut bytes);
        proof {
            let e = q@[i as int];
            assert(q@.take(i as int + 1) =~= q@.take(i as int) + seq![e]);
            lemma_enc_entries_concat(q@.take(i as int), seq![e]);
            lemma_enc_entries_single(e);
            assert(out@ =~= be_bytes8(q@.len() as u64) + enc_entries(q@.take(i as int + 1)));
        }
        i = i + 1;
    }
    proof {
        assert(q@.take(n as int) =~= q@);
    }
    out
}

/// Relies on `String::from_utf8`: succeeds exactly on valid UTF-8 and
/// returns the string those bytes encode.
#[verifier::external_body]
fn string_from_utf8(bytes: Vec<u8>) -> (r: Option<String>)
    ensures
        r matches Some(s) ==> encode_utf8(s@) == bytes@,
        valid_utf8(bytes@) ==> r is Some,
{
    String::from_utf8(bytes).ok()
}

/// Rebuilds a queue from a snapshot.  `None` means the buffer is not the
/// encoding of any well-formed queue; a `Some` result re-encodes to the
/// input exactly, so it is the unique queue the buffer describes, and a
/// buffer that does encode a well-formed queue is never refused.
pub fn decode_queue(b: &Vec<u8>) -> (r: Option<TimeQueue>)
    ensures
        r matches Some(q) ==> q.wf() && enc_queue(q@) == b@ && snapshot_fits(q@),
        (exists|v: Seq<(u64, Seq<char>)>| snapshot_of(v, b@)) ==> r is Some,
{
    let ghost hyp = exists|v: Seq<(u64, Seq<char>)>| snapshot_of(v, b@);
    let ghost hv = if hyp {
        choose|v: Seq<(u64, Seq<char>)>| snapshot_of(v, b@)
    } else {
        Seq::<(u64, Seq<char>)>::empty()
    };
    proof {
        if hyp {
            assert(snapshot_of(hv, b@));
            assert(b@.len() >= 8) by {
                assert(b@ == enc_queue(hv));
            }
        }
    }
    let total = b.len();
    if total < 8 {
        proof {
            assert(!hyp);
        }
        return None;
    }
    let w = read_word_be(b, 0);
    proof {
        if hyp {
            assert(be_bytes8(hv.len() as u64) =~= b@.subrange(0, 8));
            lemma_be_bytes8_inj(w, hv.len() as u64);
            assert(w == hv.len() as u64);
        }
    }
    if w > (usize::MAX as u64) {
        proof {
            assert(!hyp);
        }
        return None;
    }
    let n = w as usize;
    let mut tq = TimeQueue::new();
    let mut pos: usize = 8;
    let mut k: usize = 0;
    proof {
        assert(b@.subrange(8, 8) =~= enc_entries(tq@));
        if hyp {
            assert(tq@ =~= hv.take(0));
        }
    }
    while k < n
        invariant
            k <= n,
            8 <= pos <= total,
            total == b@.len(),
            n == w as usize,
            tq.wf(),
            tq@.len() == k,
            snapshot_fits(tq@),
            b@.subrange(8, pos as int) == enc_entries(tq@),
            hyp == exists|v: Seq<(u64, Seq<char>)>| snapshot_of(v, b@),
            hyp ==> snapshot_of(hv, b@) && n == hv.len() && tq@ == hv.take(k as int),
        decreases n - k,
    {
        proof {
            if hyp {
                lemma_parse_position(hv, b@, k as int, pos as int);
            }
        }
        if total - pos < 16 {
            proof {
                assert(!hyp);
            }
            return None;
        }
        let t = read_word_be(b, pos);
        let lw = read_word_be(b, pos + 8);
        proof {
            if hyp {
                let vk = hv[k as int];
                lemma_be_bytes8_inj(t, vk.0);
                lemma_be_bytes8_inj(lw, encode_utf8(vk.1).len() as u64);
            }
        }
        if lw > ((total - (pos + 16)) as u64) {
            proof {
                assert(!hyp);
            }
            return None;
        }
        let l = lw as usize;
        let id_bytes = slice_to_vec(slice_subrange(b.as_slice(), pos + 16, pos + 16 + l));
        proof {
            if hyp {
                let vk = hv[k as int];
                assert(id_bytes@ == encode_utf8(vk.1));
                vstd::utf8::encode_utf8_valid_utf8(vk.1);
            }
        }
        let id = match string_from_utf8(id_bytes) {
            Some(s) => s,
            None => {
                proof {
                    assert(!hyp);
                }
                return None;
            },
        };
        proof {
            if hyp {
                let vk = hv[k as int];
                vstd::utf8::encode_utf8_decode_utf8(id@);
                vstd::utf8::encode_utf8_decode_utf8(vk.1);
                assert(id@ == vk.1);
            }
        }
        let ghost before = tq@;
        let ghost idv = id@;
        let ok = tq.push_back(id, t);
        if !ok {
            proof {
                if hyp {
                    let vk = hv[k as int];
                    if k > 0 {
                        assert(before.last() == hv[k as int - 1]);
                        assert(crate::queue::entry_lt(hv[k as int - 1], vk));
                    }
                    if crate::queue::q_has(before, vk.1) {
                        let wi = choose|i: int|
                            0 <= i < before.len() && #[trigger] before[i].1 == vk.1;
                        assert(before[wi] == hv[wi]);
                        assert(hv[wi].1 != hv[k as int].1);
                    }
                    assert(false);
                }
            }
            return None;
        }
        proof {
            let e = (t, idv);
            assert(tq@ == before.push(e));
            assert(encode_utf8(idv) == b@.subrange(pos as int + 16, pos as int + 16 + l as int));
            assert(encode_utf8(idv).len() == l);
            assert(l as u64 == lw);
            assert(be_bytes8(encode_utf8(e.1).len() as u64) == b@.subrange(
                pos as int + 8,
                pos as int + 16,
            ));
            assert(enc_entry(e) =~= b@.subrange(pos as int, pos as int + 16 + l as int));
            assert(before.push(e) =~= before + seq![e]);
            lemma_enc_entries_concat(before, seq![e]);
            lemma_enc_entries_single(e);
            assert(b@.subrange(8, pos as int + 16 + l as int) =~= b@.subrange(8, pos as int)
                + b@.subrange(pos as int, pos as int + 16 + l as int));
            assert(b@.subrange(8, pos as int + 16 + l as int) == enc_entries(tq@));
            if hyp {
                assert(tq@ =~= hv.take(k as int + 1));
            }
        }
        pos = pos + 16 + l;
        k = k + 1;
    }
    if pos != total {
        proof {
            if hyp {
                assert(tq@ =~= hv);
                assert(enc_entries(hv) =~= b@.subrange(8, total as int)) by {
                    assert(b@ == enc_queue(hv));
                }
                assert(pos - 8 == enc_entries(hv).len());
                assert(false);
            }
        }
        return None;
    }
    proof {
        assert(b@ =~= b@.subrange(0, 8) + b@.subrange(8, total as int));
        assert(tq@.len() as u64 == w);
        assert(enc_queue(tq@) == b@);
    }
    Some(tq)
}

/// While `k` entries have been parsed into a prefix of the hypothetical
/// queue, the rest of the buffer is the encoding of its remaining entries,
/// and the next entry's fields sit at the parse position.
proof fn lemma_parse_position(hv: Seq<(u64, Seq<char>)>, b: Seq<u8>, k: int, pos: int)
    requires
        snapshot_of(hv, b),
        0 <= k < hv.len(),
        8 <= pos <= b.len(),
        b.subrange(8, pos) == enc_entries(hv.take(k)),
    ensures
        ({
            let vk = hv[k];
            let lstar = encode_utf8(vk.1).len() as int;
            &&& lstar < 0x1_0000_0000_0000_0000
            &&& b.len() - pos >= 16 + lstar
            &&& be_bytes8(vk.0) == b.subrange(pos, pos + 8)
            &&& be_bytes8(encode_utf8(vk.1).len() as u64) == b.subrange(pos + 8, pos + 16)
            &&& encode_utf8(vk.1) == b.subrange(pos + 16, pos + 16 + lstar)
        }),
{
    let total = b.len() as int;
    let vk = hv[k];
    let lstar = encode_utf8(vk.1).len() as int;
    assert(enc_entries(hv) =~= b.subrange(8, total)) by {
        assert(b == enc_queue(hv));
    }
    assert(hv =~= hv.take(k) + hv.skip(k));
    lemma_enc_entries_concat(hv.take(k), hv.skip(k));
    assert(b.subrange(8, total) =~= b.subrange(8, pos) + b.subrange(pos, total));
    assert(enc_entries(hv.take(k)).len() == pos - 8);
    assert(enc_entries(hv.skip(k)) =~= b.subrange(pos, total));
    assert(hv.skip(k)[0] == vk);
    assert(hv.skip(k).len() > 0);
    assert(enc_entries(hv.skip(k)) == enc_entry(vk) + enc_entries(hv.skip(k).drop_first()));
    assert(enc_entry(vk).len() == 16 + lstar);
    assert(be_bytes8(vk.0) =~= b.subrange(pos, pos + 8));
    assert(be_bytes8(encode_utf8(vk.1).len() as u64) =~= b.subrange(pos + 8, pos + 16));
    assert(encode_utf8(vk.1) =~= b.subrange(pos + 16, pos + 16 + lstar));
}

proof fn lemma_enc_entries_inj(v1: Seq<(u64, Seq<char>)>, v2: Seq<(u64, Seq<char>)>)
    requires
        v1.len() == v2.len(),
        enc_entries(v1) == enc_entries(v2),
        forall|i: int|
            0 <= i < v1.len() ==> (#[trigger] encode_utf8(v1[i].1).len())
                < 0x1_0000_0000_0000_0000,
        forall|i: int|
            0 <= i < v2.len() ==> (#[trigger] encode_utf8(v2[i].1).len())
                < 0x1_0000_0000_0000_0000,
    ensures
        v1 == v2,
    decreases v1.len(),
{
    if v1.len() == 0 {
        assert(v1 =~= v2);
    } else {
        let e1 = v1[0];
        let e2 = v2[0];
        let u1 = encode_utf8(e1.1);
        let u2 = encode_utf8(e2.1);
        let s = enc_entries(v1);
        assert(be_bytes8(e1.0) =~= s.subrange(0, 8));
        assert(be_bytes8(e2.0) =~= s.subrange(0, 8));
        lemma_be_bytes8_inj(e1.0, e2.0);
        assert(be_bytes8(u1.len() as u64) =~= s.subrange(8, 16));
        assert(be_bytes8(u2.len() as u64) =~= s.subrange(8, 16));
        lemma_be_bytes8_inj(u1.len() as u64, u2.len() as u64);
        assert(u1.len() == u2.len());
        let l = u1.len() as int;
        assert(u1 =~= s.subrange(16, 16 + l));
        assert(u2 =~= s.subrange(16, 16 + l));
        encode_utf8_decode_utf8(e1.1);
        encode_utf8_decode_utf8(e2.1);
        assert(e1.1 == e2.1);
        assert(e1 == e2);
        assert(enc_entries(v1.drop_first()) =~= s.subrange(16 + l, s.len() as int));
        assert(enc_entries(v2.drop_first()) =~= s.subrange(16 + l, s.len() as int));
        lemma_enc_entries_inj(v1.drop_first(), v2.drop_first());
        assert forall|i: int| 0 <= i < v1.len() implies v1[i] == v2[i] by {
            if i > 0 {
                assert(v1[i] == v1.drop_first()[i - 1]);
                assert(v2[i] == v2.drop_first()[i - 1]);
            }
        }
        assert(v1 =~= v2);
    }
}

/// A restored queue is exactly the snapshotted one: two queues with the
/// same snapshot encoding hold the same entries in the same order.
pub proof fn lemma_snapshot_roundtrip(original: Seq<(u64, Seq<char>)>, restored: Seq<(
    u64,
    Seq<char>,
)>)
    requires
        snapshot_fits(original),
        snapshot_fits(restored),
        enc_queue(restored) == enc_queue(original),
    ensures
        restored == original,
{
    let s = enc_queue(original);
    assert(be_bytes8(original.len() as u64) =~= s.subrange(0, 8));
    assert(be_bytes8(restored.len() as u64) =~= s.subrange(0, 8));
    lemma_be_bytes8_inj(original.len() as u64, restored.len() as u64);
    assert(original.len() == restored.len());
    assert(enc_entries(original) =~= s.subrange(8, s.len() as int));
    assert(enc_entries(restored) =~= s.subrange(8, s.len() as int));
    lemma_enc_entries_inj(restored, original);
}

} // verus!
