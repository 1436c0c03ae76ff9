use vstd::prelude::*;
use vstd::utf8::*;

use crate::header::{
    decode_header, encode_block, lemma_decode_encode, lemma_encode_nul_free, metadata_check,
    no_nul_char, nul_free, padded, HeaderView, HEADER_SIZE,
};
use crate::index::{
    is_zero_block, lemma_span_grows, lemma_span_take, payload_offset, scan_archive, scan_from,
    scan_step, span,
};

verus! {

/// The block that closes an archive.
pub open spec fn end_block_spec() -> Seq<u8> {
    Seq::new(HEADER_SIZE as nat, |_i: int| 0u8)
}

/// The bytes of the entries `hs` with payloads `ps`: each header block
/// followed by its payload, back to back.
pub open spec fn entries_bytes(hs: Seq<HeaderView>, ps: Seq<Seq<u8>>) -> Seq<u8>
    decreases hs.len(),
{
    if hs.len() == 0 {
        Seq::empty()
    } else {
        entries_bytes(hs.drop_last(), ps.drop_last()) + hs.last().bytes + ps.last()
    }
}

/// The archive that a writer lays out for the entries `hs` with payloads
/// `ps`: the entries, then the closing block.
pub open spec fn archive_of(hs: Seq<HeaderView>, ps: Seq<Seq<u8>>) -> Seq<u8> {
    entries_bytes(hs, ps) + end_block_spec()
}

/// `h` is a header that `Header::from_metadata` builds, for a name and a
/// prefix without NUL characters.
pub open spec fn encoded_entry(h: HeaderView) -> bool {
    &&& metadata_check(h.name, h.size, h.mtime, h.prefix) is None
    &&& no_nul_char(h.name)
    &&& no_nul_char(h.prefix)
    &&& h.bytes == encode_block(h.name, h.size, h.mtime, h.prefix)
}

/// Entries `hs` with payloads `ps` that a writer can lay out.
pub open spec fn writable(hs: Seq<HeaderView>, ps: Seq<Seq<u8>>) -> bool {
    &&& hs.len() == ps.len()
    &&& forall|i: int| 0 <= i < hs.len() ==> #[trigger] encoded_entry(hs[i])
    &&& forall|i: int| 0 <= i < hs.len() ==> (#[trigger] ps[i]).len() == hs[i].size
    &&& span(hs) <= u64::MAX
}

/// The block that closes an archive: `HEADER_SIZE` zero bytes.
pub fn end_block() -> (r: Vec<u8>)
    ensures
        r@ == end_block_spec(),
{
    let mut r: Vec<u8> = Vec::new();
    let mut i: usize = 0;
    while i < HEADER_SIZE
        invariant
            i <= HEADER_SIZE,
            r@ == Seq::new(i as nat, |_i: int| 0u8),
        decreases HEADER_SIZE - i,
    {
        r.push(0u8);
        i = i + 1;
        assert(r@ == Seq::new(i as nat, |_i: int| 0u8));
    }
    r
}

proof fn lemma_encoded_block(h: HeaderView)
    requires
        encoded_entry(h),
    ensures
        h.bytes.len() == HEADER_SIZE,
        !is_zero_block(h.bytes),
        decode_header(h.bytes) == Ok::<HeaderView, crate::errors::BlockParseError>(h),
{
    let a = encode_utf8(h.name);
    assert(padded(a, 255).len() == 255);
    lemma_decode_encode(h.name, h.size, h.mtime, h.prefix);
    lemma_encode_nul_free(h.name);
    assert(encode_utf8(h.name) == encode_scalar(h.name[0] as u32) + encode_utf8(
        h.name.drop_first(),
    ));
    assert(a.len() > 0);
    assert(h.bytes[0] == a[0]);
}

proof fn lemma_entries_len(hs: Seq<HeaderView>, ps: Seq<Seq<u8>>)
    requires
        hs.len() == ps.len(),
        forall|i: int| 0 <= i < hs.len() ==> (#[trigger] hs[i]).bytes.len() == HEADER_SIZE,
        forall|i: int| 0 <= i < hs.len() ==> (#[trigger] ps[i]).len() == hs[i].size,
    ensures
        entries_bytes(hs, ps).len() == span(hs),
    decreases hs.len(),
{
    if hs.len() > 0 {
        let dh = hs.drop_last();
        let dp = ps.drop_last();
        assert forall|i: int| 0 <= i < dh.len() implies (#[trigger] dh[i]).bytes.len()
            == HEADER_SIZE by {
            assert(dh[i] == hs[i]);
        }
        assert forall|i: int| 0 <= i < dh.len() implies (#[trigger] dp[i]).len() == dh[i].size by {
            assert(dh[i] == hs[i]);
            assert(dp[i] == ps[i]);
        }
        lemma_entries_len(dh, dp);
        assert(hs.last() == hs[hs.len() - 1]);
        assert(ps.last() == ps[ps.len() - 1]);
    }
}

proof fn lemma_entries_prefix(hs: Seq<HeaderView>, ps: Seq<Seq<u8>>, k: int)
    requires
        hs.len() == ps.len(),
        0 <= k <= hs.len(),
        forall|i: int| 0 <= i < hs.len() ==> (#[trigger] hs[i]).bytes.len() == HEADER_SIZE,
        forall|i: int| 0 <= i < hs.len() ==> (#[trigger] ps[i]).len() == hs[i].size,
    ensures
        entries_bytes(hs, ps).take(span(hs.take(k)) as int) == entries_bytes(
            hs.take(k),
            ps.take(k),
        ),
    decreases hs.len(),
{
    lemma_entries_len(hs, ps);
    if k == hs.len() {
        assert(hs.take(k) == hs);
        assert(ps.take(k) == ps);
    } else {
        let dh = hs.drop_last();
        let dp = ps.drop_last();
        assert forall|i: int| 0 <= i < dh.len() implies (#[trigger] dh[i]).bytes.len()
            == HEADER_SIZE by {
            assert(dh[i] == hs[i]);
        }
        assert forall|i: int| 0 <= i < dh.len() implies (#[trigger] dp[i]).len() == dh[i].size by {
            assert(dh[i] == hs[i]);
            assert(dp[i] == ps[i]);
        }
        lemma_entries_prefix(dh, dp, k);
        lemma_entries_len(dh, dp);
        assert(dh.take(k) == hs.take(k));
        assert(dp.take(k) == ps.take(k));
        lemma_span_grows(dh, k, dh.len() as int);
        assert(dh.take(dh.len() as int) == dh);
    }
}

/// Entry `k` sits at its offset in the archive: its header block at
/// `span` of the entries before it, then its payload.
proof fn lemma_entry_at(hs: Seq<HeaderView>, ps: Seq<Seq<u8>>, k: int)
    requires
        hs.len() == ps.len(),
        0 <= k < hs.len(),
        forall|i: int| 0 <= i < hs.len() ==> (#[trigger] hs[i]).bytes.len() == HEADER_SIZE,
        forall|i: int| 0 <= i < hs.len() ==> (#[trigger] ps[i]).len() == hs[i].size,
    ensures
        archive_of(hs, ps).subrange(span(hs.take(k)) as int, span(hs.take(k)) + HEADER_SIZE)
            == hs[k].bytes,
        archive_of(hs, ps).subrange(
            payload_offset(hs, k) as int,
            payload_offset(hs, k) + hs[k].size,
        ) == ps[k],
{
    let data = archive_of(hs, ps);
    let e = entries_bytes(hs, ps);
    lemma_entries_prefix(hs, ps, k + 1);
    lemma_entries_len(hs, ps);
    lemma_span_take(hs, k);
    lemma_span_grows(hs, k + 1, hs.len() as int);
    assert(hs.take(hs.len() as int) == hs);
    let t = entries_bytes(hs.take(k + 1), ps.take(k + 1));
    assert(hs.take(k + 1).drop_last() == hs.take(k));
    assert(ps.take(k + 1).drop_last() == ps.take(k));
    let th = hs.take(k);
    let tp = ps.take(k);
    assert forall|i: int| 0 <= i < th.len() implies (#[trigger] th[i]).bytes.len()
        == HEADER_SIZE by {
        assert(th[i] == hs[i]);
    }
    assert forall|i: int| 0 <= i < th.len() implies (#[trigger] tp[i]).len() == th[i].size by {
        assert(th[i] == hs[i]);
        assert(tp[i] == ps[i]);
    }
    lemma_entries_len(th, tp);
    let p = span(th) as int;
    assert(t == entries_bytes(th, tp) + hs[k].bytes + ps[k]);
    assert(data.take(span(hs.take(k + 1)) as int) == t);
    assert(data.subrange(p, p + HEADER_SIZE) == t.subrange(p, p + HEADER_SIZE));
    assert(t.subrange(p, p + HEADER_SIZE) == hs[k].bytes);
    assert(data.subrange(p + HEADER_SIZE, p + HEADER_SIZE + hs[k].size) == t.subrange(
        p + HEADER_SIZE,
        p + HEADER_SIZE + hs[k].size,
    ));
    assert(t.subrange(p + HEADER_SIZE, p + HEADER_SIZE + hs[k].size) == ps[k]);
}

proof fn lemma_scan_rest(hs: Seq<HeaderView>, ps: Seq<Seq<u8>>, k: int)
    requires
        writable(hs, ps),
        0 <= k <= hs.len(),
    ensures
        scan_from(archive_of(hs, ps), span(hs.take(k)) as int, hs.take(k)) == Ok::<
            Seq<HeaderView>,
            crate::errors::HeaderError,
        >(hs),
    decreases hs.len() - k,
{
    let data = archive_of(hs, ps);
    assert forall|i: int| 0 <= i < hs.len() implies (#[trigger] hs[i]).bytes.len()
        == HEADER_SIZE by {
        lemma_encoded_block(hs[i]);
    }
    lemma_entries_len(hs, ps);
    let pos = span(hs.take(k)) as int;
    if k == hs.len() {
        assert(hs.take(k) == hs);
        assert(data.subrange(pos, pos + HEADER_SIZE) == end_block_spec());
    } else {
        lemma_entry_at(hs, ps, k);
        lemma_encoded_block(hs[k]);
        lemma_span_take(hs, k);
        lemma_span_grows(hs, k + 1, hs.len() as int);
        assert(hs.take(hs.len() as int) == hs);
        assert(scan_step(hs.take(k), hs[k].bytes) == Ok::<
            Option<HeaderView>,
            crate::errors::HeaderError,
        >(Some(hs[k])));
        assert(hs.take(k).push(hs[k]) == hs.take(k + 1));
        lemma_scan_rest(hs, ps, k + 1);
    }
}

/// Reading back the archive that a writer lays out gives the headers it
/// wrote, in order, and the payload of each entry lies at the offset that
/// the index reports for it.
pub proof fn lemma_archive_round_trip(hs: Seq<HeaderView>, ps: Seq<Seq<u8>>)
    requires
        writable(hs, ps),
    ensures
        scan_archive(archive_of(hs, ps)) == Ok::<Seq<HeaderView>, crate::errors::HeaderError>(hs),
        forall|i: int|
            0 <= i < hs.len() ==> archive_of(hs, ps).subrange(
                payload_offset(hs, i) as int,
                payload_offset(hs, i) + hs[i].size,
            ) == #[trigger] ps[i],
{
    assert(hs.take(0) == Seq::<HeaderView>::empty());
    lemma_scan_rest(hs, ps, 0);
    assert forall|i: int| 0 <= i < hs.len() implies archive_of(hs, ps).subrange(
        payload_offset(hs, i) as int,
        payload_offset(hs, i) + hs[i].size,
    ) == #[trigger] ps[i] by {
        assert forall|j: int| 0 <= j < hs.len() implies (#[trigger] hs[j]).bytes.len()
            == HEADER_SIZE by {
            lemma_encoded_block(hs[j]);
        }
        lemma_entry_at(hs, ps, i);
    }
}

} // verus!
