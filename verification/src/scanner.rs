//! Packet scanner: walks a byte buffer left to right looking for a fixed
//! header, derives each candidate's length from its length byte, validates it
//! through the checksum engine, and collects every valid packet together with
//! the unconsumed tail of the buffer.

use vstd::prelude::*;
use crate::checksum::{checksum_ok, has_valid_checksum, ChecksumType};

verus! {

/// Total length that a candidate packet starting at `i` declares: the byte at
/// `i + len_idx` plus the fixed `len_off`.
pub open spec fn packet_len_at(buf: Seq<u8>, len_idx: int, len_off: int, i: int) -> int {
    buf[i + len_idx] + len_off
}

/// Whether a complete, checksum-valid packet starts at position `i` of `buf`:
/// the header matches there, the length byte is in bounds, the declared
/// length fits in the buffer, and the declared range validates under `t`.
pub open spec fn valid_packet_at(
    buf: Seq<u8>,
    header: Seq<u8>,
    len_idx: int,
    len_off: int,
    t: ChecksumType,
    i: int,
) -> bool {
    &&& 0 <= i
    &&& i + header.len() <= buf.len()
    &&& buf.subrange(i, i + header.len()) == header
    &&& i + len_idx < buf.len()
    &&& i + packet_len_at(buf, len_idx, len_off, i) <= buf.len()
    &&& checksum_ok(buf.subrange(i, i + packet_len_at(buf, len_idx, len_off, i)), t)
}

/// The scan of `buf` from position `i` on: the packets found, in discovery
/// order, and the remainder handed back to the caller.
///
/// At each position holding the header's first byte the scanner checks, in
/// order: that the full header still fits (else it stops and reports the tail
/// as remainder), that the header matches, that the length byte still fits
/// (else it stops with the tail as remainder), that the declared length fits,
/// and that the checksum validates. On any mismatch it resynchronizes one
/// byte later; after a confirmed packet it also advances by a single byte, so
/// that a frame overlapping a confirmed one is never skipped. When no further
/// first byte of the header occurs, the rest is discarded and the remainder
/// is empty.
pub open spec fn scan_from(
    buf: Seq<u8>,
    header: Seq<u8>,
    len_idx: int,
    len_off: int,
    t: ChecksumType,
    i: int,
) -> (Seq<Seq<u8>>, Seq<u8>)
    decreases buf.len() - i,
{
    if i < 0 || i >= buf.len() {
        (Seq::<Seq<u8>>::empty(), Seq::<u8>::empty())
    } else if buf[i] != header[0] {
        scan_from(buf, header, len_idx, len_off, t, i + 1)
    } else if buf.len() - i < header.len() {
        (Seq::<Seq<u8>>::empty(), buf.subrange(i, buf.len() as int))
    } else if buf.subrange(i, i + header.len()) != header {
        scan_from(buf, header, len_idx, len_off, t, i + 1)
    } else if buf.len() - i < len_idx + 1 {
        (Seq::<Seq<u8>>::empty(), buf.subrange(i, buf.len() as int))
    } else if buf.len() - i < packet_len_at(buf, len_idx, len_off, i) {
        scan_from(buf, header, len_idx, len_off, t, i + 1)
    } else if !checksum_ok(buf.subrange(i, i + packet_len_at(buf, len_idx, len_off, i)), t) {
        scan_from(buf, header, len_idx, len_off, t, i + 1)
    } else {
        let rest = scan_from(buf, header, len_idx, len_off, t, i + 1);
        (seq![buf.subrange(i, i + packet_len_at(buf, len_idx, len_off, i))] + rest.0, rest.1)
    }
}

/// The candidate packet slice that starts at position `i`: the bytes from
/// `i` for the length its length byte declares.
pub open spec fn packet_at(buf: Seq<u8>, len_idx: int, len_off: int, i: int) -> Seq<u8> {
    buf.subrange(i, i + packet_len_at(buf, len_idx, len_off, i))
}

/// All positions of `buf` at or after `i` where a valid packet starts, in
/// ascending order.
pub open spec fn valid_starts(
    buf: Seq<u8>,
    header: Seq<u8>,
    len_idx: int,
    len_off: int,
    t: ChecksumType,
    i: int,
) -> Seq<int>
    decreases buf.len() - i,
{
    if i < 0 || i >= buf.len() {
        Seq::<int>::empty()
    } else if valid_packet_at(buf, header, len_idx, len_off, t, i) {
        seq![i] + valid_starts(buf, header, len_idx, len_off, t, i + 1)
    } else {
        valid_starts(buf, header, len_idx, len_off, t, i + 1)
    }
}

proof fn lemma_valid_starts_empty(
    buf: Seq<u8>,
    header: Seq<u8>,
    len_idx: int,
    len_off: int,
    t: ChecksumType,
    i: int,
)
    requires
        forall|p: int|
            i <= p < buf.len() ==> !valid_packet_at(buf, header, len_idx, len_off, t, p),
    ensures
        valid_starts(buf, header, len_idx, len_off, t, i) == Seq::<int>::empty(),
    decreases buf.len() - i,
{
    if 0 <= i < buf.len() {
        lemma_valid_starts_empty(buf, header, len_idx, len_off, t, i + 1);
    }
}

/// Law: the scanner reports the packet at every position where a valid
/// packet starts, each exactly once, in ascending order of position, and
/// nothing else.
pub proof fn lemma_scan_is_valid_starts(
    buf: Seq<u8>,
    header: Seq<u8>,
    len_idx: int,
    len_off: int,
    t: ChecksumType,
    i: int,
)
    requires
        header.len() >= 1,
    ensures
        scan_from(buf, header, len_idx, len_off, t, i).0 == valid_starts(
            buf,
            header,
            len_idx,
            len_off,
            t,
            i,
        ).map_values(|p: int| packet_at(buf, len_idx, len_off, p)),
    decreases buf.len() - i,
{
    let f = |p: int| packet_at(buf, len_idx, len_off, p);
    let found = scan_from(buf, header, len_idx, len_off, t, i).0;
    let vs = valid_starts(buf, header, len_idx, len_off, t, i);
    if i < 0 || i >= buf.len() {
        assert(vs.map_values(f) =~= Seq::<Seq<u8>>::empty());
    } else {
        lemma_scan_is_valid_starts(buf, header, len_idx, len_off, t, i + 1);
        let found1 = scan_from(buf, header, len_idx, len_off, t, i + 1).0;
        let vs1 = valid_starts(buf, header, len_idx, len_off, t, i + 1);
        if buf[i] != header[0] {
            if valid_packet_at(buf, header, len_idx, len_off, t, i) {
                assert(buf.subrange(i, i + header.len())[0] == buf[i]);
            }
        } else if buf.len() - i < header.len() {
            assert forall|p: int|
                i <= p < buf.len() implies !valid_packet_at(
                buf,
                header,
                len_idx,
                len_off,
                t,
                p,
            ) by {
                assert(p + header.len() > buf.len());
            }
            lemma_valid_starts_empty(buf, header, len_idx, len_off, t, i);
            assert(vs.map_values(f) =~= Seq::<Seq<u8>>::empty());
        } else if buf.subrange(i, i + header.len()) != header {
            assert(!valid_packet_at(buf, header, len_idx, len_off, t, i));
        } else if buf.len() - i < len_idx + 1 {
            assert forall|p: int|
                i <= p < buf.len() implies !valid_packet_at(
                buf,
                header,
                len_idx,
                len_off,
                t,
                p,
            ) by {
                assert(p + len_idx >= buf.len());
            }
            lemma_valid_starts_empty(buf, header, len_idx, len_off, t, i);
            assert(vs.map_values(f) =~= Seq::<Seq<u8>>::empty());
        } else if buf.len() - i < packet_len_at(buf, len_idx, len_off, i) {
            assert(!valid_packet_at(buf, header, len_idx, len_off, t, i));
        } else if !checksum_ok(
            buf.subrange(i, i + packet_len_at(buf, len_idx, len_off, i)),
            t,
        ) {
            assert(!valid_packet_at(buf, header, len_idx, len_off, t, i));
        } else {
            assert(valid_packet_at(buf, header, len_idx, len_off, t, i));
            assert(vs == seq![i] + vs1);
            assert(found == seq![packet_at(buf, len_idx, len_off, i)] + found1);
            assert forall|k: int| 0 <= k < vs.len() implies vs.map_values(f)[k] == found[k] by {
                if k == 0 {
                    assert(vs[0] == i);
                } else {
                    assert(vs[k] == vs1[k - 1]);
                    assert(found[k] == found1[k - 1]);
                    assert(found1[k - 1] == vs1.map_values(f)[k - 1]);
                }
            }
            assert(found =~= vs.map_values(f));
        }
    }
}

/// Every entry of `valid_starts` is a position in `[i, buf.len())` where a
/// valid packet starts, and the entries are strictly increasing.
pub proof fn lemma_valid_starts_wf(
    buf: Seq<u8>,
    header: Seq<u8>,
    len_idx: int,
    len_off: int,
    t: ChecksumType,
    i: int,
)
    ensures
        forall|k: int|
            0 <= k < valid_starts(buf, header, len_idx, len_off, t, i).len() ==> i <= #[trigger] valid_starts(
                buf,
                header,
                len_idx,
                len_off,
                t,
                i,
            )[k] < buf.len() && valid_packet_at(
                buf,
                header,
                len_idx,
                len_off,
                t,
                valid_starts(buf, header, len_idx, len_off, t, i)[k],
            ),
        forall|k1: int, k2: int|
            0 <= k1 < k2 < valid_starts(buf, header, len_idx, len_off, t, i).len()
                ==> #[trigger] valid_starts(buf, header, len_idx, len_off, t, i)[k1]
                < #[trigger] valid_starts(buf, header, len_idx, len_off, t, i)[k2],
    decreases buf.len() - i,
{
    let vs = valid_starts(buf, header, len_idx, len_off, t, i);
    if 0 <= i < buf.len() {
        lemma_valid_starts_wf(buf, header, len_idx, len_off, t, i + 1);
        let vs1 = valid_starts(buf, header, len_idx, len_off, t, i + 1);
        if valid_packet_at(buf, header, len_idx, len_off, t, i) {
            assert forall|k: int| 0 <= k < vs.len() implies i <= vs[k] < buf.len()
                && valid_packet_at(buf, header, len_idx, len_off, t, vs[k]) by {
                if k > 0 {
                    assert(vs[k] == vs1[k - 1]);
                }
            }
            assert forall|k1: int, k2: int| 0 <= k1 < k2 < vs.len() implies vs[k1] < vs[k2] by {
                assert(vs[k2] == vs1[k2 - 1]);
                if k1 > 0 {
                    assert(vs[k1] == vs1[k1 - 1]);
                }
            }
        }
    }
}

proof fn lemma_valid_starts_contains(
    buf: Seq<u8>,
    header: Seq<u8>,
    len_idx: int,
    len_off: int,
    t: ChecksumType,
    i: int,
    p: int,
)
    requires
        header.len() >= 1,
        0 <= i <= p,
        valid_packet_at(buf, header, len_idx, len_off, t, p),
    ensures
        exists|k: int|
            0 <= k < valid_starts(buf, header, len_idx, len_off, t, i).len()
                && #[trigger] valid_starts(buf, header, len_idx, len_off, t, i)[k] == p,
    decreases p - i,
{
    let vs = valid_starts(buf, header, len_idx, len_off, t, i);
    let vs1 = valid_starts(buf, header, len_idx, len_off, t, i + 1);
    if i == p {
        assert(vs[0] == p);
    } else {
        lemma_valid_starts_contains(buf, header, len_idx, len_off, t, i + 1, p);
        let k = choose|k: int| 0 <= k < vs1.len() && #[trigger] vs1[k] == p;
        if valid_packet_at(buf, header, len_idx, len_off, t, i) {
            assert(vs[k + 1] == p);
        } else {
            assert(vs[k] == p);
        }
    }
}

/// Law (resynchronization): any two valid packets in a buffer, wherever they
/// start and whatever separates them, are both reported, in positional
/// order. In particular a corrupted candidate between or around them hides
/// neither one.
pub proof fn lemma_two_valid_packets_found_in_order(
    buf: Seq<u8>,
    header: Seq<u8>,
    len_idx: int,
    len_off: int,
    t: ChecksumType,
    p1: int,
    p2: int,
)
    requires
        header.len() >= 1,
        0 <= p1 < p2,
        valid_packet_at(buf, header, len_idx, len_off, t, p1),
        valid_packet_at(buf, header, len_idx, len_off, t, p2),
    ensures
        ({
            let found = scan_from(buf, header, len_idx, len_off, t, 0).0;
            exists|k1: int, k2: int|
                0 <= k1 < k2 < found.len() && found[k1] == packet_at(buf, len_idx, len_off, p1)
                    && found[k2] == packet_at(buf, len_idx, len_off, p2)
        }),
{
    let found = scan_from(buf, header, len_idx, len_off, t, 0).0;
    let vs = valid_starts(buf, header, len_idx, len_off, t, 0);
    lemma_scan_is_valid_starts(buf, header, len_idx, len_off, t, 0);
    lemma_valid_starts_wf(buf, header, len_idx, len_off, t, 0);
    lemma_valid_starts_contains(buf, header, len_idx, len_off, t, 0, p1);
    lemma_valid_starts_contains(buf, header, len_idx, len_off, t, 0, p2);
    let k1 = choose|k: int| 0 <= k < vs.len() && #[trigger] vs[k] == p1;
    let k2 = choose|k: int| 0 <= k < vs.len() && #[trigger] vs[k] == p2;
    if k2 < k1 {
        assert(vs[k2] < vs[k1]);
    }
    assert(found[k1] == packet_at(buf, len_idx, len_off, p1));
    assert(found[k2] == packet_at(buf, len_idx, len_off, p2));
}

/// Law (soundness): every packet the scanner reports is the candidate slice
/// of some position where a valid packet starts — a header match, an
/// in-bounds declared length, and a checksum that validates.
pub proof fn lemma_scan_sound(
    buf: Seq<u8>,
    header: Seq<u8>,
    len_idx: int,
    len_off: int,
    t: ChecksumType,
)
    requires
        header.len() >= 1,
    ensures
        scan_from(buf, header, len_idx, len_off, t, 0).0.len() == valid_starts(
            buf,
            header,
            len_idx,
            len_off,
            t,
            0,
        ).len(),
        forall|k: int|
            0 <= k < scan_from(buf, header, len_idx, len_off, t, 0).0.len() ==> {
                let p = valid_starts(buf, header, len_idx, len_off, t, 0)[k];
                valid_packet_at(buf, header, len_idx, len_off, t, p) && #[trigger] scan_from(
                    buf,
                    header,
                    len_idx,
                    len_off,
                    t,
                    0,
                ).0[k] == packet_at(buf, len_idx, len_off, p)
            },
{
    let found = scan_from(buf, header, len_idx, len_off, t, 0).0;
    let vs = valid_starts(buf, header, len_idx, len_off, t, 0);
    lemma_scan_is_valid_starts(buf, header, len_idx, len_off, t, 0);
    lemma_valid_starts_wf(buf, header, len_idx, len_off, t, 0);
    assert forall|k: int| 0 <= k < found.len() implies {
        let p = vs[k];
        valid_packet_at(buf, header, len_idx, len_off, t, p) && #[trigger] found[k] == packet_at(
            buf,
            len_idx,
            len_off,
            p,
        )
    } by {
        assert(valid_packet_at(buf, header, len_idx, len_off, t, vs[k]));
        assert(found[k] == vs.map_values(|p: int| packet_at(buf, len_idx, len_off, p))[k]);
    }
}

/// If the header's first byte occurs nowhere at or after `i`, the scan from
/// `i` finds nothing and discards the tail: the remainder is empty.
pub proof fn lemma_scan_empty_when_no_first_byte(
    buf: Seq<u8>,
    header: Seq<u8>,
    len_idx: int,
    len_off: int,
    t: ChecksumType,
    i: int,
)
    requires
        forall|j: int| i <= j < buf.len() ==> buf[j] != header[0],
    ensures
        scan_from(buf, header, len_idx, len_off, t, i).0 == Seq::<Seq<u8>>::empty(),
        scan_from(buf, header, len_idx, len_off, t, i).1 == Seq::<u8>::empty(),
    decreases buf.len() - i,
{
    if 0 <= i < buf.len() {
        lemma_scan_empty_when_no_first_byte(buf, header, len_idx, len_off, t, i + 1);
    }
}

/// Positions that do not hold the header's first byte are skipped without
/// any other effect on the scan.
proof fn lemma_scan_skips_non_first_bytes(
    buf: Seq<u8>,
    header: Seq<u8>,
    len_idx: int,
    len_off: int,
    t: ChecksumType,
    i: int,
    p: int,
)
    requires
        0 <= i <= p <= buf.len(),
        forall|j: int| i <= j < p ==> buf[j] != header[0],
    ensures
        scan_from(buf, header, len_idx, len_off, t, i) == scan_from(
            buf,
            header,
            len_idx,
            len_off,
            t,
            p,
        ),
    decreases p - i,
{
    if i < p {
        lemma_scan_skips_non_first_bytes(buf, header, len_idx, len_off, t, i + 1, p);
    }
}

/// Law (round trip): a buffer that is in its entirety one valid packet —
/// header first, total declared length exactly the buffer's length, checksum
/// valid — and whose later bytes never repeat the header's first byte, scans
/// to exactly that one packet with an empty remainder.
pub proof fn lemma_single_packet_round_trip(
    buf: Seq<u8>,
    header: Seq<u8>,
    len_idx: int,
    len_off: int,
    t: ChecksumType,
)
    requires
        header.len() >= 1,
        valid_packet_at(buf, header, len_idx, len_off, t, 0),
        packet_len_at(buf, len_idx, len_off, 0) == buf.len(),
        forall|j: int| 1 <= j < buf.len() ==> buf[j] != header[0],
    ensures
        scan_from(buf, header, len_idx, len_off, t, 0).0 == seq![buf],
        scan_from(buf, header, len_idx, len_off, t, 0).1 == Seq::<u8>::empty(),
{
    assert(buf.subrange(0, header.len() as int)[0] == buf[0]);
    lemma_scan_empty_when_no_first_byte(buf, header, len_idx, len_off, t, 1);
    assert(buf.subrange(0, buf.len() as int) =~= buf);
    assert(scan_from(buf, header, len_idx, len_off, t, 0).0 =~= seq![buf]);
}

/// Law (truncation): when the only occurrence of the header's first byte
/// leaves fewer bytes than the header needs, nothing is reported and that
/// truncated tail comes back as the remainder, ready to be completed by the
/// next read.
pub proof fn lemma_truncated_header_is_remainder(
    buf: Seq<u8>,
    header: Seq<u8>,
    len_idx: int,
    len_off: int,
    t: ChecksumType,
    p: int,
)
    requires
        header.len() >= 1,
        0 <= p < buf.len(),
        buf[p] == header[0],
        forall|j: int| 0 <= j < buf.len() && j != p ==> buf[j] != header[0],
        buf.len() - p < header.len(),
    ensures
        scan_from(buf, header, len_idx, len_off, t, 0).0 == Seq::<Seq<u8>>::empty(),
        scan_from(buf, header, len_idx, len_off, t, 0).1 == buf.subrange(p, buf.len() as int),
{
    lemma_scan_skips_non_first_bytes(buf, header, len_idx, len_off, t, 0, p);
}

/// A packet is valid at position `p` of the suffix `buf[q..]` exactly when
/// one is valid at position `q + p` of `buf`.
proof fn lemma_valid_packet_in_suffix(
    buf: Seq<u8>,
    header: Seq<u8>,
    len_idx: int,
    len_off: int,
    t: ChecksumType,
    q: int,
    p: int,
)
    requires
        0 <= q <= buf.len(),
        0 <= p,
        len_idx >= 0,
        len_off >= 0,
    ensures
        valid_packet_at(buf.subrange(q, buf.len() as int), header, len_idx, len_off, t, p)
            == valid_packet_at(buf, header, len_idx, len_off, t, q + p),
{
    let rem = buf.subrange(q, buf.len() as int);
    if p + header.len() <= rem.len() {
        assert(rem.subrange(p, p + header.len()) =~= buf.subrange(q + p, q + p + header.len()));
    }
    if p + len_idx < rem.len() {
        assert(rem[p + len_idx] == buf[q + p + len_idx]);
        let pl = packet_len_at(rem, len_idx, len_off, p);
        assert(pl == packet_len_at(buf, len_idx, len_off, q + p));
        if p + pl <= rem.len() {
            assert(rem.subrange(p, p + pl) =~= buf.subrange(q + p, q + p + pl));
        }
    }
}

proof fn lemma_rescan_remainder_empty_from(
    buf: Seq<u8>,
    header: Seq<u8>,
    len_idx: int,
    len_off: int,
    t: ChecksumType,
    i: int,
)
    requires
        header.len() >= 1,
        0 <= i,
        len_idx >= 0,
        len_off >= 0,
    ensures
        scan_from(
            scan_from(buf, header, len_idx, len_off, t, i).1,
            header,
            len_idx,
            len_off,
            t,
            0,
        ).0 == Seq::<Seq<u8>>::empty(),
    decreases buf.len() - i,
{
    let rem = scan_from(buf, header, len_idx, len_off, t, i).1;
    if i >= buf.len() {
    } else if buf[i] != header[0] {
        lemma_rescan_remainder_empty_from(buf, header, len_idx, len_off, t, i + 1);
    } else if buf.len() - i < header.len() {
        assert(rem == buf.subrange(i, buf.len() as int));
        assert forall|pp: int|
            0 <= pp < rem.len() implies !valid_packet_at(rem, header, len_idx, len_off, t, pp) by {
            lemma_valid_packet_in_suffix(buf, header, len_idx, len_off, t, i, pp);
            assert((i + pp) + header.len() > buf.len());
        }
        lemma_valid_starts_empty(rem, header, len_idx, len_off, t, 0);
        lemma_scan_is_valid_starts(rem, header, len_idx, len_off, t, 0);
        assert(valid_starts(rem, header, len_idx, len_off, t, 0).map_values(
            |p: int| packet_at(rem, len_idx, len_off, p),
        ) =~= Seq::<Seq<u8>>::empty());
    } else if buf.subrange(i, i + header.len()) != header {
        lemma_rescan_remainder_empty_from(buf, header, len_idx, len_off, t, i + 1);
    } else if buf.len() - i < len_idx + 1 {
        assert(rem == buf.subrange(i, buf.len() as int));
        assert forall|pp: int|
            0 <= pp < rem.len() implies !valid_packet_at(rem, header, len_idx, len_off, t, pp) by {
            lemma_valid_packet_in_suffix(buf, header, len_idx, len_off, t, i, pp);
            assert((i + pp) + len_idx >= buf.len());
        }
        lemma_valid_starts_empty(rem, header, len_idx, len_off, t, 0);
        lemma_scan_is_valid_starts(rem, header, len_idx, len_off, t, 0);
        assert(valid_starts(rem, header, len_idx, len_off, t, 0).map_values(
            |p: int| packet_at(rem, len_idx, len_off, p),
        ) =~= Seq::<Seq<u8>>::empty());
    } else {
        lemma_rescan_remainder_empty_from(buf, header, len_idx, len_off, t, i + 1);
    }
}

/// Law (idempotence of the split): scanning the remainder of a previous scan
/// again, with the same framing parameters, reports no packet at all — in
/// particular no packet is ever reported twice across the two calls, and the
/// remainder never withholds a packet that could have been reported.
pub proof fn lemma_rescan_of_remainder_finds_nothing(
    buf: Seq<u8>,
    header: Seq<u8>,
    len_idx: int,
    len_off: int,
    t: ChecksumType,
)
    requires
        header.len() >= 1,
        len_idx >= 0,
        len_off >= 0,
    ensures
        scan_from(
            scan_from(buf, header, len_idx, len_off, t, 0).1,
            header,
            len_idx,
            len_off,
            t,
            0,
        ).0 == Seq::<Seq<u8>>::empty(),
{
    lemma_rescan_remainder_empty_from(buf, header, len_idx, len_off, t, 0);
}

/// Whether the bytes of `pat` occur in `buf` starting at position `i`.
fn matches_at(buf: &[u8], pat: &[u8], i: usize) -> (b: bool)
    requires
        i + pat@.len() <= buf@.len(),
    ensures
        b == (buf@.subrange(i as int, i + pat@.len()) == pat@),
{
    let n = buf.len();
    let mut j: usize = 0;
    while j < pat.len()
        invariant
            n == buf@.len(),
            i + pat@.len() <= buf@.len(),
            j <= pat@.len(),
            forall|k: int| 0 <= k < j ==> buf@[i + k] == pat@[k],
        decreases pat@.len() - j,
    {
        let a = *vstd::slice::slice_index_get(buf, i + j);
        let p = *vstd::slice::slice_index_get(pat, j);
        if a != p {
            proof {
                assert(buf@.subrange(i as int, i + pat@.len())[j as int] == buf@[i + j]);
            }
            return false;
        }
        j = j + 1;
    }
    proof {
        assert(buf@.subrange(i as int, i + pat@.len()) =~= pat@);
    }
    true
}

/// Scan `buf` for packets framed by `header`, a length byte at `len_idx`
/// (total length that byte plus `len_off`), and a checksum per `chk_type`.
/// Returns every valid packet found, in order, as slices of `buf`, together
/// with the unconsumed remainder of the buffer.
#[verifier::loop_isolation(false)]
pub fn find_valid_packets<'a>(
    buf: &'a [u8],
    header: &'a [u8],
    len_idx: usize,
    len_off: usize,
    chk_type: ChecksumType,
) -> (r: (Vec<&'a [u8]>, &'a [u8]))
    requires
        header@.len() >= 1,
    ensures
        r.0.deep_view() == scan_from(buf@, header@, len_idx as int, len_off as int, chk_type, 0).0,
        r.1@ == scan_from(buf@, header@, len_idx as int, len_off as int, chk_type, 0).1,
{
    let ghost full = scan_from(buf@, header@, len_idx as int, len_off as int, chk_type, 0);
    let mut packets: Vec<&'a [u8]> = Vec::new();
    let mut i: usize = 0;
    proof {
        assert(packets.deep_view() =~~= Seq::<Seq<u8>>::empty());
        assert(full.0 =~= packets.deep_view() + full.0);
    }
    while i < buf.len()
        invariant
            i <= buf@.len(),
            full.0 == packets.deep_view() + scan_from(
                buf@,
                header@,
                len_idx as int,
                len_off as int,
                chk_type,
                i as int,
            ).0,
            full.1 == scan_from(buf@, header@, len_idx as int, len_off as int, chk_type, i as int).1,
        decreases buf@.len() - i,
    {
        let ghost tail = scan_from(buf@, header@, len_idx as int, len_off as int, chk_type, i as int);
        let bi = *vstd::slice::slice_index_get(buf, i);
        let h0 = *vstd::slice::slice_index_get(header, 0);
        if bi != h0 {
            i = i + 1;
            continue;
        }
        if buf.len() - i < header.len() {
            proof {
                assert(full.0 =~= packets.deep_view());
            }
            return (packets, vstd::slice::slice_subrange(buf, i, buf.len()));
        }
        if !matches_at(buf, header, i) {
            i = i + 1;
            continue;
        }
        if buf.len() - i <= len_idx {
            proof {
                assert(full.0 =~= packets.deep_view());
            }
            return (packets, vstd::slice::slice_subrange(buf, i, buf.len()));
        }
        let lb = *vstd::slice::slice_index_get(buf, i + len_idx) as usize;
        if len_off > buf.len() - i || lb > buf.len() - i - len_off {
            i = i + 1;
            continue;
        }
        let plen = lb + len_off;
        let candidate = vstd::slice::slice_subrange(buf, i, i + plen);
        if !has_valid_checksum(candidate, chk_type) {
            i = i + 1;
            continue;
        }
        let ghost old_dv = packets.deep_view();
        packets.push(candidate);
        proof {
            assert(packets.deep_view() =~~= old_dv.push(candidate@));
            assert(old_dv + tail.0 =~= packets.deep_view() + scan_from(
                buf@,
                header@,
                len_idx as int,
                len_off as int,
                chk_type,
                i + 1,
            ).0);
        }
        i = i + 1;
    }
    proof {
        assert(full.0 =~= packets.deep_view());
        assert(buf@.subrange(buf@.len() as int, buf@.len() as int) =~= Seq::<u8>::empty());
    }
    let rem = vstd::slice::slice_subrange(buf, buf.len(), buf.len());
    (packets, rem)
}

} // verus!

