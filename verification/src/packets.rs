//! Cutting a payload into packets: every packet holds as many bytes as the
//! protocol allows, but for the last, which holds what is left.

use vstd::prelude::*;
use vstd::slice::slice_subrange;

verus! {

/// How many packets a payload of `len` bytes makes when a packet holds at
/// most `max_payload` of them; an empty payload makes none.
pub open spec fn packet_count(len: nat, max_payload: nat) -> nat
    recommends
        max_payload > 0,
{
    ((len + max_payload - 1) / (max_payload as int)) as nat
}

/// Where packet `i` ends in the payload.
pub open spec fn packet_end(len: nat, max_payload: nat, i: int) -> int {
    if (i + 1) * max_payload < len {
        (i + 1) * max_payload
    } else {
        len as int
    }
}

/// The bytes of packet `i`.
pub open spec fn packet(payload: Seq<u8>, max_payload: nat, i: int) -> Seq<u8> {
    payload.subrange(i * max_payload, packet_end(payload.len(), max_payload, i))
}

/// The packets of a payload, in order.
pub open spec fn packets(payload: Seq<u8>, max_payload: nat) -> Seq<Seq<u8>> {
    Seq::new(
        packet_count(payload.len(), max_payload),
        |i: int| packet(payload, max_payload, i),
    )
}

/// The bytes that slices hold.
pub open spec fn bytes_of(parts: Seq<&[u8]>) -> Seq<Seq<u8>> {
    Seq::new(parts.len(), |i: int| parts[i]@)
}

/// `k` packets are not enough for `len` bytes exactly when they hold fewer.
proof fn lemma_count(len: nat, max_payload: nat, k: nat)
    requires
        max_payload > 0,
    ensures
        k < packet_count(len, max_payload) <==> k * max_payload < len,
{
    let m = max_payload as int;
    let top = len + m - 1;
    let q = top / m;
    vstd::arithmetic::div_mod::lemma_fundamental_div_mod(top, m);
    vstd::arithmetic::div_mod::lemma_mod_bound(top, m);
    assert(m * q == q * m) by (nonlinear_arith);
    assert(top == q * m + top % m && 0 <= top % m < m);
    if k < q {
        assert(k * m + m <= q * m) by (nonlinear_arith)
            requires
                k + 1 <= q,
                m > 0,
        ;
    } else {
        assert(k * m >= q * m) by (nonlinear_arith)
            requires
                k >= q,
                m > 0,
        ;
    }
}

/// Cuts `payload` into packets of at most `max_payload` bytes.
pub fn segment<'a>(payload: &'a [u8], max_payload: usize) -> (parts: Vec<&'a [u8]>)
    requires
        max_payload > 0,
    ensures
        bytes_of(parts@) == packets(payload@, max_payload as nat),
{
    let len: usize = payload.len();
    let mut parts: Vec<&'a [u8]> = Vec::new();
    let mut from: usize = 0;
    proof {
        assert(0 * max_payload == 0);
        lemma_count(len as nat, max_payload as nat, 0);
    }
    while from < len
        invariant
            max_payload > 0,
            len == payload@.len(),
            from <= len,
            from == len || from == parts.len() * max_payload,
            from == len ==> parts.len() == packet_count(len as nat, max_payload as nat),
            parts.len() <= packet_count(len as nat, max_payload as nat),
            forall|i: int|
                0 <= i < parts.len() ==> parts[i]@ == packet(payload@, max_payload as nat, i),
        decreases len - from,
    {
        let ghost k = parts.len() as nat;
        proof {
            lemma_count(len as nat, max_payload as nat, k);
            lemma_count(len as nat, max_payload as nat, k + 1);
            assert((k + 1) * max_payload == k * max_payload + max_payload) by (nonlinear_arith);
        }
        let to: usize = if len - from > max_payload {
            from + max_payload
        } else {
            len
        };
        let part = slice_subrange(payload, from, to);
        parts.push(part);
        from = to;
    }
    proof {
        assert(bytes_of(parts@) =~= packets(payload@, max_payload as nat));
    }
    parts
}

/// The packets of a payload hold the payload: joined in order they give it
/// back, none is empty, none is longer than `max_payload`, and all before
/// the last are full.
pub proof fn lemma_packets(payload: Seq<u8>, max_payload: nat)
    requires
        max_payload > 0,
    ensures
        packets(payload, max_payload).flatten() == payload,
        packets(payload, max_payload).len() == 0 <==> payload.len() == 0,
        forall|i: int|
            0 <= i < packets(payload, max_payload).len() ==> 1 <= (#[trigger] packets(
                payload,
                max_payload,
            )[i]).len() <= max_payload,
        forall|i: int|
            0 <= i < packets(payload, max_payload).len() - 1 ==> (#[trigger] packets(
                payload,
                max_payload,
            )[i]).len() == max_payload,
{
    let all = packets(payload, max_payload);
    let count = packet_count(payload.len(), max_payload);
    lemma_count(payload.len(), max_payload, 0);
    assert forall|i: int| 0 <= i < all.len() implies 1 <= (#[trigger] all[i]).len() <= max_payload
        && (i < all.len() - 1 ==> all[i].len() == max_payload) by {
        lemma_count(payload.len(), max_payload, i as nat);
        lemma_count(payload.len(), max_payload, (i + 1) as nat);
        assert((i + 1) * max_payload == i * max_payload + max_payload) by (nonlinear_arith);
    }
    lemma_joined(payload, max_payload, count);
    assert(all.take(count as int) =~= all);
    lemma_count(payload.len(), max_payload, count);
    assert(payload.subrange(0, payload.len() as int) =~= payload);
}

/// The first `k` packets, joined, are the payload up to the end of the last
/// of them.
proof fn lemma_joined(payload: Seq<u8>, max_payload: nat, k: nat)
    requires
        max_payload > 0,
        k <= packet_count(payload.len(), max_payload),
    ensures
        packets(payload, max_payload).take(k as int).flatten() == payload.subrange(
            0,
            if k * max_payload < payload.len() {
                (k * max_payload) as int
            } else {
                payload.len() as int
            },
        ),
    decreases k,
{
    let all = packets(payload, max_payload);
    if k == 0 {
        assert(all.take(0) =~= Seq::<Seq<u8>>::empty());
        assert(0 * max_payload == 0);
        assert(payload.subrange(0, 0) =~= Seq::<u8>::empty());
    } else {
        let j = (k - 1) as nat;
        lemma_joined(payload, max_payload, j);
        lemma_count(payload.len(), max_payload, j);
        assert(k * max_payload == j * max_payload + max_payload) by (nonlinear_arith)
            requires
                k == j + 1,
        ;
        assert(all.take(k as int) =~= all.take(j as int).push(all[j as int]));
        all.take(j as int).lemma_flatten_push(all[j as int]);
        assert(all[j as int] == packet(payload, max_payload, j as int));
        let joined = payload.subrange(0, (j * max_payload) as int);
        assert(joined + packet(payload, max_payload, j as int) =~= payload.subrange(
            0,
            packet_end(payload.len(), max_payload, j as int),
        ));
    }
}

} // verus!
