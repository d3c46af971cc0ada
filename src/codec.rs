use vstd::prelude::*;

use crate::message::{ClientMessage, ClientMessageView, RelayMessage, RelayMessageView, Tick};

verus! {

/// LEB128 encoding of an unsigned integer: seven bits per byte, least
/// significant group first, high bit set on every byte but the last.
pub open spec fn varint(v: nat) -> Seq<u8>
    decreases v,
{
    if v < 128 {
        seq![v as u8]
    } else {
        seq![((v % 128) + 128) as u8] + varint(v / 128)
    }
}

/// A byte string on the wire: its length as a varint, then its bytes.
pub open spec fn blob(b: Seq<u8>) -> Seq<u8> {
    varint(b.len()) + b
}

/// A run of byte strings, one after another.
pub open spec fn blobs(s: Seq<Seq<u8>>) -> Seq<u8>
    decreases s.len(),
{
    if s.len() == 0 {
        Seq::empty()
    } else {
        blob(s[0]) + blobs(s.drop_first())
    }
}

/// Wire form of a client message: a variant tag, then the fields in order.
pub open spec fn encode_client(m: ClientMessageView) -> Seq<u8> {
    match m {
        ClientMessageView::Hello => seq![0u8],
        ClientMessageView::Input { tick, payload } => seq![1u8] + varint(tick as nat) + blob(
            payload,
        ),
    }
}

/// Wire form of a relay message: a variant tag, then the fields in order.
pub open spec fn encode_relay(m: RelayMessageView) -> Seq<u8> {
    match m {
        RelayMessageView::Welcome { player_slot } => seq![0u8, player_slot],
        RelayMessageView::GameStart => seq![1u8],
        RelayMessageView::TickInputs { tick, inputs } => seq![2u8] + varint(tick as nat) + varint(
            inputs.len(),
        ) + blobs(inputs),
    }
}

/// The client message whose wire form is `b`, if there is one.
pub open spec fn decode_client(b: Seq<u8>) -> Option<ClientMessageView> {
    if exists|m: ClientMessageView| encode_client(m) == b {
        Some(choose|m: ClientMessageView| encode_client(m) == b)
    } else {
        None
    }
}

/// The relay message whose wire form is `b`, if there is one.
pub open spec fn decode_relay(b: Seq<u8>) -> Option<RelayMessageView> {
    if exists|m: RelayMessageView| encode_relay(m) == b {
        Some(choose|m: RelayMessageView| encode_relay(m) == b)
    } else {
        None
    }
}

proof fn lemma_varint_first(v: nat)
    ensures
        varint(v).len() >= 1,
        v < 128 ==> varint(v) == seq![v as u8],
        v < 128 ==> varint(v)[0] < 128,
        v >= 128 ==> varint(v)[0] >= 128,
        v >= 128 ==> varint(v).drop_first() == varint(v / 128),
        v >= 128 ==> varint(v)[0] == v % 128 + 128,
{
    reveal_with_fuel(varint, 2);
    if v >= 128 {
        assert(varint(v).drop_first() =~= varint(v / 128));
    }
}

/// No varint is a proper prefix of another: the encoding can be read back
/// from the front of any byte string that starts with it.
proof fn lemma_varint_prefix(a: nat, b: nat, x: Seq<u8>, y: Seq<u8>)
    requires
        varint(a) + x == varint(b) + y,
    ensures
        a == b,
        x == y,
    decreases a,
{
    lemma_varint_first(a);
    lemma_varint_first(b);
    let s = varint(a) + x;
    assert(s[0] == varint(a)[0]);
    assert(s[0] == varint(b)[0]);
    if a < 128 {
        assert(b < 128);
        assert(x =~= s.drop_first());
        assert(y =~= s.drop_first());
    } else {
        assert(b >= 128);
        assert(s.drop_first() =~= varint(a / 128) + x);
        assert(s.drop_first() =~= varint(b / 128) + y);
        lemma_varint_prefix(a / 128, b / 128, x, y);
    }
}


/// Appends the varint encoding of `v`.
fn push_varint(out: &mut Vec<u8>, v: u64)
    ensures
        final(out)@ == old(out)@ + varint(v as nat),
    decreases v,
{
    proof {
        lemma_varint_first(v as nat);
    }
    if v < 128 {
        out.push(v as u8);
        assert(final(out)@ =~= old(out)@ + varint(v as nat));
    } else {
        out.push(((v % 128) + 128) as u8);
        push_varint(out, v / 128);
        assert(varint(v as nat) =~= seq![((v % 128) + 128) as u8] + varint((v / 128) as nat));
        assert(final(out)@ =~= old(out)@ + varint(v as nat));
    }
}

proof fn lemma_split_128(low: nat, w: nat)
    requires
        low < 128,
    ensures
        (low + 128 * w) % 128 == low,
        (low + 128 * w) / 128 == w,
{
    assert((low + 128 * w) % 128 == low) by (nonlinear_arith)
        requires
            low < 128,
    ;
    assert((low + 128 * w) / 128 == w) by (nonlinear_arith)
        requires
            low < 128,
    ;
}

/// Reads a varint at `pos`. On success returns its value and its length;
/// on failure no varint of a `u64` value starts there.
fn read_varint(b: &[u8], pos: usize) -> (r: Option<(u64, usize)>)
    requires
        pos <= b@.len(),
    ensures
        match r {
            Some((v, k)) => pos + k <= b@.len() && b@.subrange(pos as int, pos + k) == varint(
                v as nat,
            ),
            None => forall|v: nat, x: Seq<u8>|
                v <= u64::MAX ==> #[trigger] (varint(v) + x) != b@.skip(pos as int),
        },
    decreases b@.len() - pos,
{
    if pos >= b.len() {
        assert forall|v: nat, x: Seq<u8>| v <= u64::MAX implies #[trigger] (varint(v) + x)
            != b@.skip(pos as int) by {
            lemma_varint_first(v);
            assert((varint(v) + x).len() >= 1);
            assert(b@.skip(pos as int).len() == 0);
        }
        return None;
    }
    let c = b[pos];
    if c < 128 {
        proof {
            lemma_varint_first(c as nat);
            assert(b@.subrange(pos as int, pos + 1) =~= seq![c]);
        }
        return Some((c as u64, 1));
    }
    match read_varint(b, pos + 1) {
        None => {
            assert forall|v: nat, x: Seq<u8>| v <= u64::MAX implies #[trigger] (varint(v) + x)
                != b@.skip(pos as int) by {
                lemma_varint_first(v);
                if varint(v) + x == b@.skip(pos as int) {
                    assert((varint(v) + x)[0] == c);
                    assert(v >= 128);
                    assert(b@.skip(pos + 1) =~= (varint(v) + x).drop_first());
                    assert((varint(v) + x).drop_first() =~= varint(v / 128) + x);
                }
            }
            None
        },
        Some((w, k)) => {
            let ghost rest = b@.skip(pos + 1 + k);
            assert(b@.skip(pos + 1) =~= varint(w as nat) + rest) by {
                assert(b@.skip(pos + 1) =~= b@.subrange(pos + 1, pos + 1 + k) + rest);
            }
            let low: u64 = (c - 128) as u64;
            // Any varint at `pos` continues with the one just read.
            assert forall|v: nat, x: Seq<u8>|
                v <= u64::MAX && #[trigger] (varint(v) + x) == b@.skip(pos as int) implies v
                / 128 == w && v % 128 == low && v >= 128 by {
                lemma_varint_first(v);
                assert((varint(v) + x)[0] == c);
                assert(b@.skip(pos + 1) =~= (varint(v) + x).drop_first());
                assert((varint(v) + x).drop_first() =~= varint(v / 128) + x);
                lemma_varint_prefix(v / 128, w as nat, x, rest);
            }
            if w == 0 {
                return None;
            }
            if w > (u64::MAX - low) / 128 {
                assert forall|v: nat, x: Seq<u8>| v <= u64::MAX implies #[trigger] (varint(v) + x)
                    != b@.skip(pos as int) by {
                    if varint(v) + x == b@.skip(pos as int) {
                        assert(v == 128 * (v / 128) + v % 128) by (nonlinear_arith);
                        assert(128 * (w as int) > u64::MAX - low) by (nonlinear_arith)
                            requires
                                w > (u64::MAX - low) / 128,
                                low < 128,
                        ;
                    }
                }
                return None;
            }
            assert(128 * w <= u64::MAX - low) by (nonlinear_arith)
                requires
                    w <= (u64::MAX - low) / 128,
                    low < 128,
            ;
            let v: u64 = low + 128 * w;
            proof {
                lemma_split_128(low as nat, w as nat);
                lemma_varint_first(v as nat);
                assert(b@.subrange(pos as int, pos + 1 + k) =~= seq![c] + b@.subrange(
                    pos + 1,
                    pos + 1 + k,
                ));
                assert(varint(v as nat) =~= seq![c] + varint(w as nat));
            }
            Some((v, k + 1))
        },
    }
}

/// A length-prefixed byte string can be read back from the front of any
/// byte string that starts with it.
proof fn lemma_blob_prefix(p: Seq<u8>, q: Seq<u8>, x: Seq<u8>, y: Seq<u8>)
    requires
        blob(p) + x == blob(q) + y,
    ensures
        p == q,
        x == y,
{
    assert(blob(p) + x =~= varint(p.len()) + (p + x));
    assert(blob(q) + y =~= varint(q.len()) + (q + y));
    lemma_varint_prefix(p.len(), q.len(), p + x, q + y);
    assert(p =~= (p + x).take(p.len() as int));
    assert(q =~= (q + y).take(q.len() as int));
    assert(x =~= (p + x).skip(p.len() as int));
    assert(y =~= (q + y).skip(q.len() as int));
}

proof fn lemma_blobs_push(s: Seq<Seq<u8>>, e: Seq<u8>)
    ensures
        blobs(s.push(e)) == blobs(s) + blob(e),
    decreases s.len(),
{
    if s.len() == 0 {
        assert(s.push(e).drop_first() =~= Seq::<Seq<u8>>::empty());
        assert(s.push(e)[0] == e);
        assert(blobs(s.push(e).drop_first()) =~= Seq::<u8>::empty());
        assert(blobs(s) =~= Seq::<u8>::empty());
        assert(blobs(s.push(e)) =~= blobs(s) + blob(e));
    } else {
        assert(s.push(e).drop_first() =~= s.drop_first().push(e));
        assert(s.push(e)[0] == s[0]);
        lemma_blobs_push(s.drop_first(), e);
        assert(blobs(s.push(e)) =~= blobs(s) + blob(e));
    }
}

/// Two runs of equally many byte strings that start the same byte string
/// are the same run.
proof fn lemma_blobs_prefix(s: Seq<Seq<u8>>, t: Seq<Seq<u8>>, x: Seq<u8>, y: Seq<u8>)
    requires
        s.len() == t.len(),
        blobs(s) + x == blobs(t) + y,
    ensures
        s == t,
        x == y,
    decreases s.len(),
{
    if s.len() == 0 {
        assert(x =~= blobs(s) + x);
        assert(y =~= blobs(t) + y);
        assert(s =~= t);
    } else {
        assert(blobs(s) + x =~= blob(s[0]) + (blobs(s.drop_first()) + x));
        assert(blobs(t) + y =~= blob(t[0]) + (blobs(t.drop_first()) + y));
        lemma_blob_prefix(s[0], t[0], blobs(s.drop_first()) + x, blobs(t.drop_first()) + y);
        lemma_blobs_prefix(s.drop_first(), t.drop_first(), x, y);
        assert(s =~= seq![s[0]] + s.drop_first());
        assert(t =~= seq![t[0]] + t.drop_first());
    }
}

/// Appends `p` as a length-prefixed byte string.
fn push_blob(out: &mut Vec<u8>, p: &[u8])
    ensures
        final(out)@ == old(out)@ + blob(p@),
{
    push_varint(out, p.len() as u64);
    let ghost start = out@;
    let mut i: usize = 0;
    while i < p.len()
        invariant
            i <= p@.len(),
            out@ == start + p@.take(i as int),
        decreases p@.len() - i,
    {
        out.push(p[i]);
        i = i + 1;
        assert(out@ =~= start + p@.take(i as int));
    }
    assert(p@.take(i as int) =~= p@);
    assert(final(out)@ =~= old(out)@ + blob(p@));
}

/// Reads a length-prefixed byte string at `pos`. On success returns it and
/// the number of bytes it took; on failure none starts there.
fn read_blob(b: &[u8], pos: usize) -> (r: Option<(Vec<u8>, usize)>)
    requires
        pos <= b@.len(),
    ensures
        match r {
            Some((p, k)) => pos + k <= b@.len() && b@.subrange(pos as int, pos + k) == blob(p@),
            None => forall|p: Seq<u8>, x: Seq<u8>| #[trigger] (blob(p) + x) != b@.skip(pos as int),
        },
{
    let len = b.len();
    let (n, k) = match read_varint(b, pos) {
        Some(found) => found,
        None => {
            assert forall|p: Seq<u8>, x: Seq<u8>| #[trigger] (blob(p) + x) != b@.skip(
                pos as int,
            ) by {
                assert(blob(p) + x =~= varint(p.len()) + (p + x));
                if blob(p) + x == b@.skip(pos as int) {
                    assert(p.len() <= len);
                    assert(varint(p.len()) + (p + x) != b@.skip(pos as int));
                }
            }
            return None;
        },
    };
    let start = pos + k;
    let ghost rest = b@.skip(start as int);
    assert(b@.skip(pos as int) =~= varint(n as nat) + rest) by {
        assert(b@.skip(pos as int) =~= b@.subrange(pos as int, start as int) + rest);
    }
    if n > (b.len() - start) as u64 {
        assert forall|p: Seq<u8>, x: Seq<u8>| #[trigger] (blob(p) + x) != b@.skip(pos as int) by {
            assert(blob(p) + x =~= varint(p.len()) + (p + x));
            if blob(p) + x == b@.skip(pos as int) {
                lemma_varint_prefix(p.len(), n as nat, p + x, rest);
            }
        }
        return None;
    }
    let n = n as usize;
    let mut out: Vec<u8> = Vec::new();
    let mut i: usize = 0;
    while i < n
        invariant
            i <= n,
            start + n <= b@.len(),
            len == b@.len(),
            out@ == b@.subrange(start as int, start + i),
        decreases n - i,
    {
        out.push(b[start + i]);
        i = i + 1;
        assert(out@ =~= b@.subrange(start as int, start + i));
    }
    assert(b@.subrange(pos as int, start + n) =~= b@.subrange(pos as int, start as int)
        + b@.subrange(start as int, start + n));
    Some((out, k + n))
}

proof fn lemma_encode_client_tag(m: ClientMessageView)
    ensures
        encode_client(m).len() >= 1,
        encode_client(m)[0] == (if m is Hello { 0u8 } else { 1u8 }),
        m is Hello ==> encode_client(m).len() == 1,
{
    lemma_varint_first(0);
    if let ClientMessageView::Input { tick, payload } = m {
        lemma_varint_first(tick as nat);
    }
}

proof fn lemma_encode_relay_tag(m: RelayMessageView)
    ensures
        encode_relay(m).len() >= 1,
        encode_relay(m)[0] == (match m {
            RelayMessageView::Welcome { .. } => 0u8,
            RelayMessageView::GameStart => 1u8,
            RelayMessageView::TickInputs { .. } => 2u8,
        }),
        m is GameStart ==> encode_relay(m).len() == 1,
        m is Welcome ==> encode_relay(m).len() == 2,
{
    if let RelayMessageView::TickInputs { tick, inputs } = m {
        lemma_varint_first(tick as nat);
    }
}

proof fn lemma_encode_client_injective(m1: ClientMessageView, m2: ClientMessageView)
    requires
        encode_client(m1) == encode_client(m2),
    ensures
        m1 == m2,
{
    let e = encode_client(m1);
    lemma_encode_client_tag(m1);
    lemma_encode_client_tag(m2);
    if let ClientMessageView::Input { tick: t1, payload: p1 } = m1 {
        if let ClientMessageView::Input { tick: t2, payload: p2 } = m2 {
            assert(e.drop_first() =~= varint(t1 as nat) + blob(p1));
            assert(e.drop_first() =~= varint(t2 as nat) + blob(p2));
            lemma_varint_prefix(t1 as nat, t2 as nat, blob(p1), blob(p2));
            assert(blob(p1) + Seq::empty() =~= blob(p2) + Seq::empty());
            lemma_blob_prefix(p1, p2, Seq::empty(), Seq::empty());
        }
    }
}

proof fn lemma_encode_relay_injective(m1: RelayMessageView, m2: RelayMessageView)
    requires
        encode_relay(m1) == encode_relay(m2),
    ensures
        m1 == m2,
{
    let e = encode_relay(m1);
    lemma_encode_relay_tag(m1);
    lemma_encode_relay_tag(m2);
    if let RelayMessageView::TickInputs { tick: t1, inputs: i1 } = m1 {
        if let RelayMessageView::TickInputs { tick: t2, inputs: i2 } = m2 {
            let r1 = varint(i1.len()) + blobs(i1);
            let r2 = varint(i2.len()) + blobs(i2);
            assert(e.drop_first() =~= varint(t1 as nat) + r1);
            assert(e.drop_first() =~= varint(t2 as nat) + r2);
            lemma_varint_prefix(t1 as nat, t2 as nat, r1, r2);
            lemma_varint_prefix(i1.len(), i2.len(), blobs(i1), blobs(i2));
            assert(blobs(i1) + Seq::empty() =~= blobs(i2) + Seq::empty());
            lemma_blobs_prefix(i1, i2, Seq::empty(), Seq::empty());
        }
    }
    if let RelayMessageView::Welcome { player_slot: a } = m1 {
        if let RelayMessageView::Welcome { player_slot: b } = m2 {
            assert(e[1] == encode_relay(m2)[1]);
        }
    }
}

/// Decoding the wire form of a client message gives back that message.
pub proof fn lemma_client_round_trip(m: ClientMessageView)
    ensures
        decode_client(encode_client(m)) == Some(m),
{
    let b = encode_client(m);
    assert(exists|x: ClientMessageView| encode_client(x) == b);
    let c = choose|x: ClientMessageView| encode_client(x) == b;
    lemma_encode_client_injective(c, m);
}

/// Decoding the wire form of a relay message gives back that message.
pub proof fn lemma_relay_round_trip(m: RelayMessageView)
    ensures
        decode_relay(encode_relay(m)) == Some(m),
{
    let b = encode_relay(m);
    assert(exists|x: RelayMessageView| encode_relay(x) == b);
    let c = choose|x: RelayMessageView| encode_relay(x) == b;
    lemma_encode_relay_injective(c, m);
}

impl ClientMessage {
    /// The wire form of this message.
    pub fn serialize(&self) -> (r: Vec<u8>)
        ensures
            r@ == encode_client(self@),
    {
        let mut out: Vec<u8> = Vec::new();
        match self {
            ClientMessage::Hello => {
                out.push(0);
            },
            ClientMessage::Input { tick, payload } => {
                out.push(1);
                push_varint(&mut out, *tick as u64);
                push_blob(&mut out, payload.as_slice());
            },
        }
        assert(out@ =~= encode_client(self@));
        out
    }

    /// The message whose wire form is `bytes`; `None` where `bytes` is the
    /// wire form of no message (truncated, malformed, or with bytes left over).
    pub fn deserialize(bytes: &[u8]) -> (r: Option<ClientMessage>)
        ensures
            match r {
                Some(m) => decode_client(bytes@) == Some(m@),
                None => decode_client(bytes@) is None,
            },
    {
        let len = bytes.len();
        if len == 0 {
            assert forall|m: ClientMessageView| encode_client(m) != bytes@ by {
                assert(encode_client(m).len() >= 1);
            }
            return None;
        }
        let tag = bytes[0];
        if tag == 0 {
            if len == 1 {
                assert(bytes@ =~= encode_client(ClientMessageView::Hello));
                proof {
                    lemma_client_round_trip(ClientMessageView::Hello);
                }
                return Some(ClientMessage::Hello);
            }
            assert forall|m: ClientMessageView| encode_client(m) != bytes@ by {
                if encode_client(m) == bytes@ {
                    assert(encode_client(m)[0] == 0);
                }
            }
            return None;
        }
        if tag != 1 {
            assert forall|m: ClientMessageView| encode_client(m) != bytes@ by {
                if encode_client(m) == bytes@ {
                    assert(encode_client(m)[0] == tag);
                }
            }
            return None;
        }
        let ghost tail = bytes@.skip(1);
        // An input message continues with its tick and its payload.
        assert forall|t: Tick, p: Seq<u8>|
            #[trigger] encode_client(ClientMessageView::Input { tick: t, payload: p }) == bytes@
                implies tail == varint(t as nat) + blob(p) by {
            assert(tail =~= encode_client(ClientMessageView::Input { tick: t, payload: p }).drop_first());
        }
        let (t, k) = match read_varint(bytes, 1) {
            Some(found) => found,
            None => {
                assert forall|m: ClientMessageView| encode_client(m) != bytes@ by {
                    if encode_client(m) == bytes@ {
                        if let ClientMessageView::Input { tick, payload } = m {
                            assert(varint(tick as nat) + blob(payload) == tail);
                        }
                    }
                }
                return None;
            },
        };
        let ghost rest = bytes@.skip(1 + k);
        assert(tail =~= varint(t as nat) + rest) by {
            assert(tail =~= bytes@.subrange(1, 1 + k) + rest);
        }
        if t > u32::MAX as u64 {
            assert forall|m: ClientMessageView| encode_client(m) != bytes@ by {
                if encode_client(m) == bytes@ {
                    if let ClientMessageView::Input { tick, payload } = m {
                        lemma_varint_prefix(tick as nat, t as nat, blob(payload), rest);
                    }
                }
            }
            return None;
        }
        let (payload, k2) = match read_blob(bytes, 1 + k) {
            Some(found) => found,
            None => {
                assert forall|m: ClientMessageView| encode_client(m) != bytes@ by {
                    if encode_client(m) == bytes@ {
                        if let ClientMessageView::Input { tick, payload } = m {
                            lemma_varint_prefix(tick as nat, t as nat, blob(payload), rest);
                            assert(blob(payload) + Seq::empty() == rest);
                        }
                    }
                }
                return None;
            },
        };
        let ghost rest2 = bytes@.skip(1 + k + k2);
        assert(rest =~= blob(payload@) + rest2) by {
            assert(rest =~= bytes@.subrange(1 + k, 1 + k + k2) + rest2);
        }
        if 1 + k + k2 != len {
            assert forall|m: ClientMessageView| encode_client(m) != bytes@ by {
                if encode_client(m) == bytes@ {
                    if let ClientMessageView::Input { tick, payload: p } = m {
                        lemma_varint_prefix(tick as nat, t as nat, blob(p), rest);
                        assert(blob(p) + Seq::empty() == rest);
                        lemma_blob_prefix(p, payload@, Seq::empty(), rest2);
                        assert(rest2.len() == 0);
                    }
                }
            }
            return None;
        }
        let m = ClientMessage::Input { tick: t as u32, payload };
        assert(rest2.len() == 0);
        assert(bytes@ =~= seq![1u8] + tail);
        assert(rest =~= blob(payload@));
        assert(bytes@ =~= encode_client(m@));
        proof {
            lemma_client_round_trip(m@);
        }
        Some(m)
    }
}

/// `s` is the wire form of some run of `n` byte strings.
pub open spec fn blobs_decodable(s: Seq<u8>, n: nat) -> bool {
    exists|ins: Seq<Seq<u8>>| ins.len() == n && #[trigger] blobs(ins) == s
}

proof fn lemma_blobs_take(v: Seq<Seq<u8>>, i: int)
    requires
        0 <= i < v.len(),
    ensures
        blobs(v.take(i + 1)) == blobs(v.take(i)) + blob(v[i]),
{
    assert(v.take(i + 1) =~= v.take(i).push(v[i]));
    lemma_blobs_push(v.take(i), v[i]);
}

proof fn lemma_blobs_len(s: Seq<Seq<u8>>)
    ensures
        blobs(s).len() >= s.len(),
    decreases s.len(),
{
    if s.len() > 0 {
        lemma_varint_first(s[0].len());
        lemma_blobs_len(s.drop_first());
    }
}

/// Reads `n` length-prefixed byte strings from `start` to the end of `b`.
/// Fails exactly where the bytes from `start` on are not such a run.
fn read_blobs(b: &[u8], start: usize, n: u64) -> (r: Option<Vec<Vec<u8>>>)
    requires
        start <= b@.len(),
    ensures
        match r {
            Some(v) => v@.len() == n && blobs(crate::message::blobs_view(v@)) == b@.skip(
                start as int,
            ),
            None => !blobs_decodable(b@.skip(start as int), n as nat),
        },
{
    let len = b.len();
    let ghost body = b@.skip(start as int);
    let mut inputs: Vec<Vec<u8>> = Vec::new();
    let mut pos: usize = start;
    let mut i: u64 = 0;
    while i < n
        invariant
            start <= pos <= len,
            len == b@.len(),
            body == b@.skip(start as int),
            inputs@.len() == i,
            i <= n,
            b@.subrange(start as int, pos as int) == blobs(crate::message::blobs_view(inputs@)),
            blobs_decodable(body, n as nat) ==> blobs_decodable(
                b@.skip(pos as int),
                (n - i) as nat,
            ),
        decreases n - i,
    {
        let (e, ke) = match read_blob(b, pos) {
            Some(found) => found,
            None => {
                proof {
                    if blobs_decodable(body, n as nat) {
                        let ins = choose|ins: Seq<Seq<u8>>|
                            ins.len() == (n - i) as nat && #[trigger] blobs(ins) == b@.skip(
                                pos as int,
                            );
                        assert(blobs(ins) == blob(ins[0]) + blobs(ins.drop_first()));
                        assert(blob(ins[0]) + blobs(ins.drop_first()) != b@.skip(pos as int));
                    }
                }
                return None;
            },
        };
        let ghost old_inputs = crate::message::blobs_view(inputs@);
        let ghost next = b@.skip(pos + ke);
        assert(b@.skip(pos as int) =~= blob(e@) + next) by {
            assert(b@.skip(pos as int) =~= b@.subrange(pos as int, pos + ke) + next);
        }
        proof {
            if blobs_decodable(body, n as nat) {
                let ins = choose|ins: Seq<Seq<u8>>|
                    ins.len() == (n - i) as nat && #[trigger] blobs(ins) == b@.skip(pos as int);
                assert(blobs(ins) == blob(ins[0]) + blobs(ins.drop_first()));
                lemma_blob_prefix(ins[0], e@, blobs(ins.drop_first()), next);
                assert(ins.drop_first().len() == (n - (i + 1)) as nat);
                assert(blobs(ins.drop_first()) == next);
            }
        }
        inputs.push(e);
        proof {
            assert(crate::message::blobs_view(inputs@) =~= old_inputs.push(e@));
            lemma_blobs_push(old_inputs, e@);
            assert(b@.subrange(start as int, pos + ke) =~= b@.subrange(start as int, pos as int)
                + b@.subrange(pos as int, pos + ke));
        }
        pos = pos + ke;
        i = i + 1;
    }
    if pos != len {
        proof {
            if blobs_decodable(body, n as nat) {
                let ins = choose|ins: Seq<Seq<u8>>|
                    ins.len() == 0 && #[trigger] blobs(ins) == b@.skip(pos as int);
                assert(blobs(ins).len() == 0);
            }
        }
        return None;
    }
    assert(body =~= b@.subrange(start as int, pos as int));
    Some(inputs)
}

impl RelayMessage {
    /// The wire form of this message.
    pub fn serialize(&self) -> (r: Vec<u8>)
        ensures
            r@ == encode_relay(self@),
    {
        let mut out: Vec<u8> = Vec::new();
        match self {
            RelayMessage::Welcome { player_slot } => {
                out.push(0);
                out.push(*player_slot);
            },
            RelayMessage::GameStart => {
                out.push(1);
            },
            RelayMessage::TickInputs { tick, inputs } => {
                out.push(2);
                push_varint(&mut out, *tick as u64);
                push_varint(&mut out, inputs.len() as u64);
                let ghost head = out@;
                let ghost v = crate::message::blobs_view(inputs@);
                let mut i: usize = 0;
                while i < inputs.len()
                    invariant
                        i <= inputs@.len(),
                        v == crate::message::blobs_view(inputs@),
                        out@ == head + blobs(v.take(i as int)),
                    decreases inputs@.len() - i,
                {
                    proof {
                        lemma_blobs_take(v, i as int);
                    }
                    push_blob(&mut out, inputs[i].as_slice());
                    i = i + 1;
                }
                assert(v.take(i as int) =~= v);
            },
        }
        assert(out@ =~= encode_relay(self@));
        out
    }

    /// The message whose wire form is `bytes`; `None` where `bytes` is the
    /// wire form of no message (truncated, malformed, or with bytes left over).
    pub fn deserialize(bytes: &[u8]) -> (r: Option<RelayMessage>)
        ensures
            match r {
                Some(m) => decode_relay(bytes@) == Some(m@),
                None => decode_relay(bytes@) is None,
            },
    {
        let len = bytes.len();
        if len == 0 {
            assert forall|m: RelayMessageView| encode_relay(m) != bytes@ by {
                assert(encode_relay(m).len() >= 1);
            }
            return None;
        }
        let tag = bytes[0];
        if tag == 0 {
            if len == 2 {
                let m = RelayMessage::Welcome { player_slot: bytes[1] };
                assert(bytes@ =~= encode_relay(m@));
                proof {
                    lemma_relay_round_trip(m@);
                }
                return Some(m);
            }
            assert forall|m: RelayMessageView| encode_relay(m) != bytes@ by {
                if encode_relay(m) == bytes@ {
                    assert(encode_relay(m)[0] == 0);
                }
            }
            return None;
        }
        if tag == 1 {
            if len == 1 {
                assert(bytes@ =~= encode_relay(RelayMessageView::GameStart));
                proof {
                    lemma_relay_round_trip(RelayMessageView::GameStart);
                }
                return Some(RelayMessage::GameStart);
            }
            assert forall|m: RelayMessageView| encode_relay(m) != bytes@ by {
                if encode_relay(m) == bytes@ {
                    assert(encode_relay(m)[0] == 1);
                }
            }
            return None;
        }
        if tag != 2 {
            assert forall|m: RelayMessageView| encode_relay(m) != bytes@ by {
                if encode_relay(m) == bytes@ {
                    assert(encode_relay(m)[0] == tag);
                }
            }
            return None;
        }
        let ghost tail = bytes@.skip(1);
        // A tick-inputs message continues with its tick, its count and its inputs.
        assert forall|t: Tick, ins: Seq<Seq<u8>>|
            #[trigger] encode_relay(RelayMessageView::TickInputs { tick: t, inputs: ins })
                == bytes@ implies tail == varint(t as nat) + (varint(ins.len()) + blobs(ins)) by {
            assert(tail =~= encode_relay(
                RelayMessageView::TickInputs { tick: t, inputs: ins },
            ).drop_first());
        }
        let (t, k) = match read_varint(bytes, 1) {
            Some(found) => found,
            None => {
                assert forall|m: RelayMessageView| encode_relay(m) != bytes@ by {
                    if encode_relay(m) == bytes@ {
                        if let RelayMessageView::TickInputs { tick, inputs } = m {
                            assert(varint(tick as nat) + (varint(inputs.len()) + blobs(inputs))
                                == tail);
                        }
                    }
                }
                return None;
            },
        };
        let ghost rest = bytes@.skip(1 + k);
        assert(tail =~= varint(t as nat) + rest) by {
            assert(tail =~= bytes@.subrange(1, 1 + k) + rest);
        }
        if t > u32::MAX as u64 {
            assert forall|m: RelayMessageView| encode_relay(m) != bytes@ by {
                if encode_relay(m) == bytes@ {
                    if let RelayMessageView::TickInputs { tick, inputs } = m {
                        lemma_varint_prefix(
                            tick as nat,
                            t as nat,
                            varint(inputs.len()) + blobs(inputs),
                            rest,
                        );
                    }
                }
            }
            return None;
        }
        let (n, k2) = match read_varint(bytes, 1 + k) {
            Some(found) => found,
            None => {
                assert forall|m: RelayMessageView| encode_relay(m) != bytes@ by {
                    if encode_relay(m) == bytes@ {
                        if let RelayMessageView::TickInputs { tick, inputs } = m {
                            lemma_varint_prefix(
                                tick as nat,
                                t as nat,
                                varint(inputs.len()) + blobs(inputs),
                                rest,
                            );
                            lemma_blobs_len(inputs);
                            assert(inputs.len() <= len);
                            assert(varint(inputs.len()) + blobs(inputs) == rest);
                        }
                    }
                }
                return None;
            },
        };
        let start = 1 + k + k2;
        let ghost body = bytes@.skip(start as int);
        assert(rest =~= varint(n as nat) + body) by {
            assert(rest =~= bytes@.subrange(1 + k, start as int) + body);
        }
        // Any message with these bytes has `n` inputs whose wire form is `body`.
        assert forall|m: RelayMessageView| encode_relay(m) == bytes@ implies blobs_decodable(
            body,
            n as nat,
        ) by {
            if let RelayMessageView::TickInputs { tick, inputs } = m {
                lemma_varint_prefix(tick as nat, t as nat, varint(inputs.len()) + blobs(inputs), rest);
                lemma_varint_prefix(inputs.len(), n as nat, blobs(inputs), body);
                assert(blobs(inputs) == body);
            } else {
                assert(encode_relay(m)[0] == 2);
            }
        }
        let inputs = match read_blobs(bytes, start, n) {
            Some(found) => found,
            None => {
                assert forall|m: RelayMessageView| encode_relay(m) != bytes@ by {
                    if encode_relay(m) == bytes@ {
                        assert(blobs_decodable(body, n as nat));
                    }
                }
                return None;
            },
        };
        let m = RelayMessage::TickInputs { tick: t as u32, inputs };
        proof {
            let v = crate::message::blobs_view(m->inputs@);
            assert(v.len() == n);
            assert(bytes@ =~= seq![2u8] + tail);
            assert(rest =~= varint(v.len()) + blobs(v));
            assert(bytes@ =~= encode_relay(m@));
            lemma_relay_round_trip(m@);
        }
        Some(m)
    }
}

/// A message with a wire form: what `serialize` writes and `deserialize`
/// reads back.
pub trait WireMessage: Sized {
    /// The wire form of this message.
    spec fn wire_form(&self) -> Seq<u8>;

    fn to_wire(&self) -> (r: Vec<u8>)
        ensures
            r@ == self.wire_form(),
    ;

    fn from_wire(bytes: &[u8]) -> (r: Option<Self>)
        ensures
            match r {
                Some(m) => m.wire_form() == bytes@,
                None => forall|m: Self| #[trigger] m.wire_form() != bytes@,
            },
    ;
}

impl WireMessage for ClientMessage {
    open spec fn wire_form(&self) -> Seq<u8> {
        encode_client(self@)
    }

    fn to_wire(&self) -> (r: Vec<u8>) {
        self.serialize()
    }

    fn from_wire(bytes: &[u8]) -> (r: Option<Self>) {
        let r = ClientMessage::deserialize(bytes);
        proof {
            if let Some(m) = &r {
                assert(exists|x: ClientMessageView| encode_client(x) == bytes@);
                let c = choose|x: ClientMessageView| encode_client(x) == bytes@;
                assert(c == m@);
            } else {
                assert forall|m: Self| #[trigger] m.wire_form() != bytes@ by {
                    if m.wire_form() == bytes@ {
                        assert(encode_client(m@) == bytes@);
                    }
                }
            }
        }
        r
    }
}

impl WireMessage for RelayMessage {
    open spec fn wire_form(&self) -> Seq<u8> {
        encode_relay(self@)
    }

    fn to_wire(&self) -> (r: Vec<u8>) {
        self.serialize()
    }

    fn from_wire(bytes: &[u8]) -> (r: Option<Self>) {
        let r = RelayMessage::deserialize(bytes);
        proof {
            if let Some(m) = &r {
                assert(exists|x: RelayMessageView| encode_relay(x) == bytes@);
                let c = choose|x: RelayMessageView| encode_relay(x) == bytes@;
                assert(c == m@);
            } else {
                assert forall|m: Self| #[trigger] m.wire_form() != bytes@ by {
                    if m.wire_form() == bytes@ {
                        assert(encode_relay(m@) == bytes@);
                    }
                }
            }
        }
        r
    }
}

/// The wire form of `value`.
pub fn serialize<T: WireMessage>(value: &T) -> (r: Vec<u8>)
    ensures
        r@ == value.wire_form(),
{
    value.to_wire()
}

/// The message whose wire form is `bytes`, or `None` where there is none.
pub fn deserialize<T: WireMessage>(bytes: &[u8]) -> (r: Option<T>)
    ensures
        match r {
            Some(m) => m.wire_form() == bytes@,
            None => forall|m: T| #[trigger] m.wire_form() != bytes@,
        },
{
    T::from_wire(bytes)
}

} // verus!
