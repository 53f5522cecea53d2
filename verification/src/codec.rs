//! The canonical byte encoding of a vault, with a verified round trip.
//!
//! Layout: a record count as a little-endian `u64`, then each record in order.
//! A record is its service (length-prefixed), a one-byte tag for the optional
//! username (`0` absent, `1` present followed by the length-prefixed name),
//! and the secret (length-prefixed). Decoding is strict: any structural
//! violation, an unknown tag, or trailing bytes make it fail.

use vstd::prelude::*;
use crate::vault::{Password, PasswordManager, RecordView};

verus! {

/// The eight little-endian bytes of `x`.
pub open spec fn u64_le_bytes(x: u64) -> Seq<u8> {
    seq![
        (x & 0xff) as u8,
        ((x >> 8) & 0xff) as u8,
        ((x >> 16) & 0xff) as u8,
        ((x >> 24) & 0xff) as u8,
        ((x >> 32) & 0xff) as u8,
        ((x >> 40) & 0xff) as u8,
        ((x >> 48) & 0xff) as u8,
        ((x >> 56) & 0xff) as u8,
    ]
}

/// The `u64` read little-endian from eight bytes.
pub open spec fn le_u64(b: Seq<u8>) -> u64
    recommends
        b.len() == 8,
{
    (b[0] as u64) | ((b[1] as u64) << 8) | ((b[2] as u64) << 16) | ((b[3] as u64) << 24)
        | ((b[4] as u64) << 32) | ((b[5] as u64) << 40) | ((b[6] as u64) << 48)
        | ((b[7] as u64) << 56)
}

pub proof fn lemma_le_u64_round_trip(x: u64)
    ensures
        le_u64(u64_le_bytes(x)) == x,
{
    assert(x & 0xff < 256 && (x >> 8) & 0xff < 256 && (x >> 16) & 0xff < 256
        && (x >> 24) & 0xff < 256 && (x >> 32) & 0xff < 256 && (x >> 40) & 0xff < 256
        && (x >> 48) & 0xff < 256 && (x >> 56) & 0xff < 256) by (bit_vector);
    assert((x & 0xff) | (((x >> 8) & 0xff) << 8) | (((x >> 16) & 0xff) << 16)
        | (((x >> 24) & 0xff) << 24) | (((x >> 32) & 0xff) << 32) | (((x >> 40) & 0xff) << 40)
        | (((x >> 48) & 0xff) << 48) | (((x >> 56) & 0xff) << 56) == x) by (bit_vector);
}

/// Reads a `u64` from the front of `b`; returns it with the remaining bytes.
pub open spec fn parse_u64(b: Seq<u8>) -> Option<(u64, Seq<u8>)> {
    if b.len() >= 8 {
        Some((le_u64(b.take(8)), b.skip(8)))
    } else {
        None
    }
}

/// Reads a length-prefixed byte string from the front of `b`.
pub open spec fn parse_bytes(b: Seq<u8>) -> Option<(Seq<u8>, Seq<u8>)> {
    match parse_u64(b) {
        None => None,
        Some((n, rest)) => if rest.len() >= n {
            Some((rest.take(n as int), rest.skip(n as int)))
        } else {
            None
        },
    }
}

/// Reads one record from the front of `b`.
pub open spec fn parse_record(b: Seq<u8>) -> Option<(RecordView, Seq<u8>)> {
    match parse_bytes(b) {
        None => None,
        Some((service, r1)) => if r1.len() < 1 {
            None
        } else if r1[0] == 0u8 {
            match parse_bytes(r1.skip(1)) {
                None => None,
                Some((secret, r2)) => Some(
                    (RecordView { service, username: None, password: secret }, r2),
                ),
            }
        } else if r1[0] == 1u8 {
            match parse_bytes(r1.skip(1)) {
                None => None,
                Some((username, r2)) => match parse_bytes(r2) {
                    None => None,
                    Some((secret, r3)) => Some(
                        (RecordView { service, username: Some(username), password: secret }, r3),
                    ),
                },
            }
        } else {
            None
        },
    }
}

/// Reads `n` records from the front of `b`.
pub open spec fn parse_records(b: Seq<u8>, n: nat) -> Option<(Seq<RecordView>, Seq<u8>)>
    decreases n,
{
    if n == 0 {
        Some((Seq::<RecordView>::empty(), b))
    } else {
        match parse_record(b) {
            None => None,
            Some((r, rest)) => match parse_records(rest, (n - 1) as nat) {
                None => None,
                Some((rs, rest2)) => Some((seq![r] + rs, rest2)),
            },
        }
    }
}

/// The vault that `b` decodes to, or `None` when `b` is not a canonical
/// encoding (bad structure, unknown tag, or trailing bytes).
pub open spec fn decode_spec(b: Seq<u8>) -> Option<Seq<RecordView>> {
    match parse_u64(b) {
        None => None,
        Some((n, rest)) => match parse_records(rest, n as nat) {
            None => None,
            Some((rs, rest2)) => if rest2.len() == 0 {
                Some(rs)
            } else {
                None
            },
        },
    }
}

/// A byte string with its length prefix.
pub open spec fn encode_bytes(s: Seq<u8>) -> Seq<u8>
    recommends
        s.len() <= u64::MAX,
{
    u64_le_bytes(s.len() as u64) + s
}

/// The encoding of one record.
pub open spec fn encode_record(r: RecordView) -> Seq<u8> {
    encode_bytes(r.service) + (match r.username {
        Some(u) => seq![1u8] + encode_bytes(u),
        None => seq![0u8],
    }) + encode_bytes(r.password)
}

/// The concatenated encodings of the records of `rs`, in order.
pub open spec fn encode_records(rs: Seq<RecordView>) -> Seq<u8>
    decreases rs.len(),
{
    if rs.len() == 0 {
        Seq::<u8>::empty()
    } else {
        encode_record(rs[0]) + encode_records(rs.skip(1))
    }
}

/// The canonical encoding of a whole vault.
pub open spec fn encode_spec(rs: Seq<RecordView>) -> Seq<u8> {
    u64_le_bytes(rs.len() as u64) + encode_records(rs)
}

/// Every length in the record fits the codec's `u64` length fields. Vaults
/// held in memory satisfy this by construction.
pub open spec fn record_fits(r: RecordView) -> bool {
    r.service.len() <= u64::MAX && r.password.len() <= u64::MAX && (match r.username {
        Some(u) => u.len() <= u64::MAX,
        None => true,
    })
}

/// Every record of `rs`, and the record count itself, fit the codec's fields.
pub open spec fn records_fit(rs: Seq<RecordView>) -> bool {
    rs.len() <= u64::MAX && forall|i: int| 0 <= i < rs.len() ==> record_fits(#[trigger] rs[i])
}

proof fn lemma_parse_u64_of_encode(x: u64, rest: Seq<u8>)
    ensures
        parse_u64(u64_le_bytes(x) + rest) == Some((x, rest)),
{
    let b = u64_le_bytes(x) + rest;
    assert(b.take(8) =~= u64_le_bytes(x));
    assert(b.skip(8) =~= rest);
    lemma_le_u64_round_trip(x);
}

proof fn lemma_parse_bytes_of_encode(s: Seq<u8>, rest: Seq<u8>)
    requires
        s.len() <= u64::MAX,
    ensures
        parse_bytes(encode_bytes(s) + rest) == Some((s, rest)),
{
    assert(encode_bytes(s) + rest =~= u64_le_bytes(s.len() as u64) + (s + rest));
    lemma_parse_u64_of_encode(s.len() as u64, s + rest);
    assert((s + rest).take(s.len() as int) =~= s);
    assert((s + rest).skip(s.len() as int) =~= rest);
}

#[verifier::rlimit(50)]
proof fn lemma_parse_record_of_encode(r: RecordView, rest: Seq<u8>)
    requires
        record_fits(r),
    ensures
        parse_record(encode_record(r) + rest) == Some((r, rest)),
{
    let b = encode_record(r) + rest;
    match r.username {
        None => {
            let tail = seq![0u8] + (encode_bytes(r.password) + rest);
            assert(b =~= encode_bytes(r.service) + tail);
            lemma_parse_bytes_of_encode(r.service, tail);
            assert(parse_bytes(b) == Some((r.service, tail)));
            assert(tail.len() >= 1);
            assert(tail[0] == 0u8);
            assert(tail.skip(1) =~= encode_bytes(r.password) + rest);
            lemma_parse_bytes_of_encode(r.password, rest);
            assert(parse_bytes(tail.skip(1)) == Some((r.password, rest)));
            assert(RecordView { service: r.service, username: None, password: r.password } == r);
        },
        Some(u) => {
            let tail = seq![1u8] + (encode_bytes(u) + (encode_bytes(r.password) + rest));
            assert(b =~= encode_bytes(r.service) + tail);
            lemma_parse_bytes_of_encode(r.service, tail);
            assert(parse_bytes(b) == Some((r.service, tail)));
            assert(tail.len() >= 1);
            assert(tail[0] == 1u8);
            assert(tail.skip(1) =~= encode_bytes(u) + (encode_bytes(r.password) + rest));
            lemma_parse_bytes_of_encode(u, encode_bytes(r.password) + rest);
            assert(parse_bytes(tail.skip(1)) == Some((u, encode_bytes(r.password) + rest)));
            lemma_parse_bytes_of_encode(r.password, rest);
            assert(RecordView { service: r.service, username: Some(u), password: r.password }
                == r);
        },
    }
}

proof fn lemma_parse_records_of_encode(rs: Seq<RecordView>, rest: Seq<u8>)
    requires
        forall|i: int| 0 <= i < rs.len() ==> record_fits(#[trigger] rs[i]),
    ensures
        parse_records(encode_records(rs) + rest, rs.len() as nat) == Some((rs, rest)),
    decreases rs.len(),
{
    if rs.len() == 0 {
        assert(encode_records(rs) + rest =~= rest);
        assert(rs =~= Seq::<RecordView>::empty());
    } else {
        let b = encode_records(rs) + rest;
        assert(b =~= encode_record(rs[0]) + (encode_records(rs.skip(1)) + rest));
        lemma_parse_record_of_encode(rs[0], encode_records(rs.skip(1)) + rest);
        lemma_parse_records_of_encode(rs.skip(1), rest);
        assert(seq![rs[0]] + rs.skip(1) =~= rs);
    }
}

/// Law: decoding undoes encoding — every vault whose lengths fit the codec's
/// fields is recovered exactly from its own canonical encoding.
pub proof fn lemma_decode_of_encode(rs: Seq<RecordView>)
    requires
        records_fit(rs),
    ensures
        decode_spec(encode_spec(rs)) == Some(rs),
{
    lemma_parse_u64_of_encode(rs.len() as u64, encode_records(rs));
    lemma_parse_records_of_encode(rs, Seq::<u8>::empty());
    assert(encode_records(rs) + Seq::<u8>::empty() =~= encode_records(rs));
}

proof fn lemma_u64_le_bytes_of_le(s: Seq<u8>)
    requires
        s.len() == 8,
    ensures
        u64_le_bytes(le_u64(s)) == s,
{
    let b0 = s[0];
    let b1 = s[1];
    let b2 = s[2];
    let b3 = s[3];
    let b4 = s[4];
    let b5 = s[5];
    let b6 = s[6];
    let b7 = s[7];
    let x = le_u64(s);
    assert(x == (b0 as u64) | ((b1 as u64) << 8) | ((b2 as u64) << 16) | ((b3 as u64) << 24)
        | ((b4 as u64) << 32) | ((b5 as u64) << 40) | ((b6 as u64) << 48) | ((b7 as u64) << 56));
    let y = (b0 as u64) | ((b1 as u64) << 8) | ((b2 as u64) << 16) | ((b3 as u64) << 24)
        | ((b4 as u64) << 32) | ((b5 as u64) << 40) | ((b6 as u64) << 48) | ((b7 as u64) << 56);
    assert(y & 0xff == b0 as u64 && (y >> 8) & 0xff == b1 as u64 && (y >> 16) & 0xff == b2 as u64
        && (y >> 24) & 0xff == b3 as u64 && (y >> 32) & 0xff == b4 as u64 && (y >> 40) & 0xff
        == b5 as u64 && (y >> 48) & 0xff == b6 as u64 && (y >> 56) & 0xff == b7 as u64) by (bit_vector)
        requires
            y == (b0 as u64) | ((b1 as u64) << 8) | ((b2 as u64) << 16) | ((b3 as u64) << 24)
                | ((b4 as u64) << 32) | ((b5 as u64) << 40) | ((b6 as u64) << 48)
                | ((b7 as u64) << 56),
    ;
    assert(u64_le_bytes(x) =~= s);
}

proof fn lemma_parse_u64_inverts(b: Seq<u8>)
    requires
        parse_u64(b) is Some,
    ensures
        ({
            let (x, rest) = parse_u64(b)->Some_0;
            u64_le_bytes(x) + rest == b
        }),
{
    lemma_u64_le_bytes_of_le(b.take(8));
    assert(u64_le_bytes(le_u64(b.take(8))) + b.skip(8) =~= b);
}

proof fn lemma_parse_bytes_inverts(b: Seq<u8>)
    requires
        parse_bytes(b) is Some,
    ensures
        ({
            let (s, rest) = parse_bytes(b)->Some_0;
            s.len() <= u64::MAX && encode_bytes(s) + rest == b
        }),
{
    let (n, mid) = parse_u64(b)->Some_0;
    lemma_parse_u64_inverts(b);
    let s = mid.take(n as int);
    let rest = mid.skip(n as int);
    assert(s.len() == n);
    assert(s + rest =~= mid);
    assert(encode_bytes(s) + rest =~= u64_le_bytes(n) + mid);
}

#[verifier::rlimit(50)]
proof fn lemma_parse_record_inverts(b: Seq<u8>)
    requires
        parse_record(b) is Some,
    ensures
        ({
            let (r, rest) = parse_record(b)->Some_0;
            record_fits(r) && encode_record(r) + rest == b
        }),
{
    let (service, r1) = parse_bytes(b)->Some_0;
    lemma_parse_bytes_inverts(b);
    assert(r1 =~= seq![r1[0]] + r1.skip(1));
    if r1[0] == 0u8 {
        let (secret, r2) = parse_bytes(r1.skip(1))->Some_0;
        lemma_parse_bytes_inverts(r1.skip(1));
        let r = RecordView { service, username: None, password: secret };
        assert(encode_record(r) + r2 =~= encode_bytes(service) + ((seq![0u8] + encode_bytes(
            secret,
        )) + r2));
        assert(encode_record(r) + r2 =~= b);
    } else {
        let (username, r2) = parse_bytes(r1.skip(1))->Some_0;
        lemma_parse_bytes_inverts(r1.skip(1));
        let (secret, r3) = parse_bytes(r2)->Some_0;
        lemma_parse_bytes_inverts(r2);
        let r = RecordView { service, username: Some(username), password: secret };
        assert(encode_record(r) + r3 =~= encode_bytes(service) + ((seq![1u8] + (encode_bytes(
            username,
        ) + encode_bytes(secret))) + r3));
        assert(encode_record(r) + r3 =~= b);
    }
}

#[verifier::rlimit(80)]
proof fn lemma_parse_records_inverts(b: Seq<u8>, n: nat)
    requires
        parse_records(b, n) is Some,
    ensures
        ({
            let (rs, rest) = parse_records(b, n)->Some_0;
            &&& rs.len() == n
            &&& forall|i: int| 0 <= i < rs.len() ==> record_fits(#[trigger] rs[i])
            &&& encode_records(rs) + rest == b
        }),
    decreases n,
{
    if n == 0 {
        let (rs, rest) = parse_records(b, n)->Some_0;
        assert(encode_records(rs) + rest =~= b);
    } else {
        let (r, mid) = parse_record(b)->Some_0;
        lemma_parse_record_inverts(b);
        let (rs1, rest) = parse_records(mid, (n - 1) as nat)->Some_0;
        lemma_parse_records_inverts(mid, (n - 1) as nat);
        let rs = seq![r] + rs1;
        assert(rs[0] == r);
        assert(rs.skip(1) =~= rs1);
        assert(encode_records(rs) == encode_record(r) + encode_records(rs1));
        assert(encode_records(rs) + rest =~= encode_record(r) + (encode_records(rs1) + rest));
        assert(encode_records(rs) + rest =~= b);
        assert forall|i: int| 0 <= i < rs.len() implies record_fits(#[trigger] rs[i]) by {
            if i == 0 {
                assert(rs[i] == r);
            } else {
                assert(rs[i] == rs1[i - 1]);
            }
        }
    }
}

/// Law: the encoding is canonical — a byte string that decodes at all is the
/// encoding of exactly the vault it decodes to, so re-encoding gives the very
/// same bytes back.
pub proof fn lemma_encode_of_decode(b: Seq<u8>)
    requires
        decode_spec(b) is Some,
    ensures
        records_fit(decode_spec(b)->Some_0),
        encode_spec(decode_spec(b)->Some_0) == b,
{
    let (n, mid) = parse_u64(b)->Some_0;
    lemma_parse_u64_inverts(b);
    let (rs, rest) = parse_records(mid, n as nat)->Some_0;
    lemma_parse_records_inverts(mid, n as nat);
    assert(rest.len() == 0);
    assert(encode_records(rs) =~= encode_records(rs) + rest);
    assert(encode_spec(rs) =~= b);
}

/// Appends the eight little-endian bytes of `x`.
fn push_u64_le(out: &mut Vec<u8>, x: u64)
    ensures
        final(out)@ == old(out)@ + u64_le_bytes(x),
{
    proof {
        assert(x & 0xff < 256 && (x >> 8) & 0xff < 256 && (x >> 16) & 0xff < 256
            && (x >> 24) & 0xff < 256 && (x >> 32) & 0xff < 256 && (x >> 40) & 0xff < 256
            && (x >> 48) & 0xff < 256 && (x >> 56) & 0xff < 256) by (bit_vector);
    }
    out.push((x & 0xff) as u8);
    out.push(((x >> 8) & 0xff) as u8);
    out.push(((x >> 16) & 0xff) as u8);
    out.push(((x >> 24) & 0xff) as u8);
    out.push(((x >> 32) & 0xff) as u8);
    out.push(((x >> 40) & 0xff) as u8);
    out.push(((x >> 48) & 0xff) as u8);
    out.push(((x >> 56) & 0xff) as u8);
    proof {
        assert(out@ =~= old(out)@ + u64_le_bytes(x));
    }
}

/// Appends `s` with its length prefix.
fn push_bytes(out: &mut Vec<u8>, s: &Vec<u8>)
    ensures
        final(out)@ == old(out)@ + encode_bytes(s@),
        s@.len() <= u64::MAX,
{
    let n = s.len();
    proof {
        assert(s@.len() <= u64::MAX);
    }
    push_u64_le(out, n as u64);
    out.extend_from_slice(s.as_slice());
    proof {
        assert(out@ =~= old(out)@ + encode_bytes(s@));
    }
}

/// Appends the encoding of one record.
fn push_record(out: &mut Vec<u8>, p: &Password)
    ensures
        final(out)@ == old(out)@ + encode_record(p@),
        record_fits(p@),
{
    push_bytes(out, &p.service);
    match &p.username {
        None => {
            out.push(0u8);
        },
        Some(u) => {
            out.push(1u8);
            push_bytes(out, u);
        },
    }
    push_bytes(out, &p.password);
    proof {
        assert(out@ =~= old(out)@ + encode_record(p@));
    }
}

/// Serializes the vault into its canonical encoding.
pub fn encode(m: &PasswordManager) -> (r: Vec<u8>)
    ensures
        r@ == encode_spec(m@),
        records_fit(m@),
{
    let mut out: Vec<u8> = Vec::new();
    let n = m.passwords.len();
    push_u64_le(&mut out, n as u64);
    let mut i: usize = 0;
    while i < n
        invariant
            i <= n,
            n == m.passwords@.len(),
            out@ == u64_le_bytes(n as u64) + encode_records(m@.take(i as int)),
            forall|j: int| 0 <= j < i ==> record_fits(#[trigger] m@[j]),
        decreases n - i,
    {
        let ghost prefix = m@.take(i as int);
        push_record(&mut out, &m.passwords[i]);
        proof {
            lemma_encode_records_append(prefix, seq![m@[i as int]]);
            assert(encode_records(seq![m@[i as int]]) =~= encode_record(m@[i as int])
                + encode_records(seq![m@[i as int]].skip(1)));
            assert(seq![m@[i as int]].skip(1) =~= Seq::<RecordView>::empty());
            assert(encode_records(seq![m@[i as int]]) =~= encode_record(m@[i as int]));
            assert(m@.take(i + 1) =~= prefix + seq![m@[i as int]]);
            assert(out@ =~= u64_le_bytes(n as u64) + encode_records(m@.take(i + 1)));
        }
        i += 1;
    }
    proof {
        assert(m@.take(n as int) =~= m@);
        assert(out@ =~= encode_spec(m@));
    }
    out
}

proof fn lemma_encode_records_append(a: Seq<RecordView>, b: Seq<RecordView>)
    ensures
        encode_records(a + b) == encode_records(a) + encode_records(b),
    decreases a.len(),
{
    if a.len() == 0 {
        assert(a + b =~= b);
        assert(encode_records(a) + encode_records(b) =~= encode_records(b));
    } else {
        assert((a + b).len() > 0);
        assert((a + b)[0] == a[0]);
        assert((a + b).skip(1) =~= a.skip(1) + b);
        lemma_encode_records_append(a.skip(1), b);
        assert(encode_record(a[0]) + (encode_records(a.skip(1)) + encode_records(b)) =~= (
        encode_record(a[0]) + encode_records(a.skip(1))) + encode_records(b));
    }
}

/// Reads a `u64` at `pos`; returns it with the position after it.
fn take_u64(b: &Vec<u8>, pos: usize) -> (r: Option<(u64, usize)>)
    requires
        pos <= b@.len(),
    ensures
        match r {
            Some((x, p2)) => pos <= p2 <= b@.len() && parse_u64(b@.skip(pos as int)) == Some(
                (x, b@.skip(p2 as int)),
            ),
            None => parse_u64(b@.skip(pos as int)) is None,
        },
{
    if b.len() - pos >= 8 {
        let x = (b[pos] as u64) | ((b[pos + 1] as u64) << 8) | ((b[pos + 2] as u64) << 16)
            | ((b[pos + 3] as u64) << 24) | ((b[pos + 4] as u64) << 32)
            | ((b[pos + 5] as u64) << 40) | ((b[pos + 6] as u64) << 48)
            | ((b[pos + 7] as u64) << 56);
        proof {
            assert(b@.skip(pos as int).take(8) =~= b@.subrange(pos as int, pos as int + 8));
            assert(x == le_u64(b@.skip(pos as int).take(8)));
            assert(b@.skip(pos as int).skip(8) =~= b@.skip(pos as int + 8));
        }
        Some((x, pos + 8))
    } else {
        None
    }
}

/// Reads a length-prefixed byte string at `pos`.
fn take_bytes(b: &Vec<u8>, pos: usize) -> (r: Option<(Vec<u8>, usize)>)
    requires
        pos <= b@.len(),
    ensures
        match r {
            Some((v, p2)) => pos <= p2 <= b@.len() && parse_bytes(b@.skip(pos as int)) == Some(
                (v@, b@.skip(p2 as int)),
            ),
            None => parse_bytes(b@.skip(pos as int)) is None,
        },
{
    match take_u64(b, pos) {
        None => None,
        Some((n, p1)) => {
            if n <= (b.len() - p1) as u64 {
                let len = n as usize;
                let mut v: Vec<u8> = Vec::new();
                let mut j: usize = 0;
                while j < len
                    invariant
                        j <= len,
                        p1 + len <= b@.len(),
                        b@.len() <= usize::MAX,
                        v@ == b@.subrange(p1 as int, p1 as int + j as int),
                    decreases len - j,
                {
                    v.push(b[p1 + j]);
                    proof {
                        assert(v@ =~= b@.subrange(p1 as int, p1 as int + j as int + 1));
                    }
                    j += 1;
                }
                proof {
                    assert(v@ =~= b@.skip(p1 as int).take(n as int));
                    assert(b@.skip(p1 as int).skip(n as int) =~= b@.skip(p1 as int + n as int));
                }
                Some((v, p1 + len))
            } else {
                proof {
                    assert(b@.skip(p1 as int).len() < n);
                }
                None
            }
        },
    }
}

/// Reads one record at `pos`.
fn take_record(b: &Vec<u8>, pos: usize) -> (r: Option<(Password, usize)>)
    requires
        pos <= b@.len(),
    ensures
        match r {
            Some((p, p2)) => pos <= p2 <= b@.len() && parse_record(b@.skip(pos as int)) == Some(
                (p@, b@.skip(p2 as int)),
            ),
            None => parse_record(b@.skip(pos as int)) is None,
        },
{
    let (service, p1) = match take_bytes(b, pos) {
        None => {
            return None;
        },
        Some(x) => x,
    };
    if p1 >= b.len() {
        proof {
            assert(b@.skip(p1 as int).len() < 1);
        }
        return None;
    }
    let tag = b[p1];
    proof {
        assert(b@.skip(p1 as int)[0] == b@[p1 as int]);
        assert(b@.skip(p1 as int).skip(1) =~= b@.skip(p1 as int + 1));
    }
    if tag == 0u8 {
        match take_bytes(b, p1 + 1) {
            None => None,
            Some((secret, p2)) => Some(
                (Password { service, username: None, password: secret }, p2),
            ),
        }
    } else if tag == 1u8 {
        match take_bytes(b, p1 + 1) {
            None => None,
            Some((username, p2)) => match take_bytes(b, p2) {
                None => None,
                Some((secret, p3)) => Some(
                    (Password { service, username: Some(username), password: secret }, p3),
                ),
            },
        }
    } else {
        None
    }
}

/// Deserializes a canonical encoding back into a vault; `None` on any byte
/// string that `encode` could not have produced.
#[verifier::rlimit(50)]
pub fn decode(b: &Vec<u8>) -> (r: Option<PasswordManager>)
    ensures
        match r {
            Some(m) => decode_spec(b@) == Some(m@),
            None => decode_spec(b@) is None,
        },
{
    proof {
        assert(b@.skip(0) =~= b@);
    }
    let (n, start) = match take_u64(b, 0) {
        None => {
            return None;
        },
        Some(x) => x,
    };
    let mut records: Vec<Password> = Vec::new();
    let mut pos = start;
    let mut i: u64 = 0;
    while i < n
        invariant
            i <= n,
            pos <= b@.len(),
            parse_u64(b@) == Some((n, b@.skip(start as int))),
            start <= b@.len(),
            ({
                let whole = parse_records(b@.skip(start as int), n as nat);
                let acc = records@.map_values(|p: Password| p@);
                match parse_records(b@.skip(pos as int), (n - i) as nat) {
                    Some((tail, rest)) => whole == Some((acc + tail, rest)),
                    None => whole is None,
                }
            }),
        decreases n - i,
    {
        let ghost acc = records@.map_values(|p: Password| p@);
        match take_record(b, pos) {
            None => {
                proof {
                    assert(parse_records(b@.skip(pos as int), (n - i) as nat) is None);
                }
                return None;
            },
            Some((p, p2)) => {
                proof {
                    let tail_parse = parse_records(b@.skip(p2 as int), (n - i - 1) as nat);
                    assert(parse_records(b@.skip(pos as int), (n - i) as nat) == (match tail_parse {
                        Some((rs, rest2)) => Some((seq![p@] + rs, rest2)),
                        None => None,
                    }));
                    if tail_parse is Some {
                        let (rs, rest2) = tail_parse->Some_0;
                        assert(acc + (seq![p@] + rs) =~= acc.push(p@) + rs);
                    }
                }
                records.push(p);
                proof {
                    assert(records@.map_values(|q: Password| q@) =~= acc.push(p@));
                }
                pos = p2;
                i += 1;
            },
        }
    }
    if pos != b.len() {
        proof {
            assert(b@.skip(pos as int).len() != 0);
        }
        return None;
    }
    let m = PasswordManager { passwords: records };
    proof {
        assert(b@.skip(pos as int).len() == 0);
        assert(m@ + Seq::<RecordView>::empty() =~= m@);
    }
    Some(m)
}

} // verus!
