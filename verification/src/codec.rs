//! Encoding and decoding of queue records.
//!
//! A persisted queue is a JSON array whose elements are the records of the
//! queued entities, oldest first.  Each record is a JSON object with
//! fixed-width lowercase-hex fields; the variable-length payload field comes
//! last.  Contents that lack the top-level array frame load as an empty
//! queue; inside the frame, a record that does not decode is skipped when a
//! file is loaded, and anything that is not a well-bracketed object is
//! ignored.

use vstd::prelude::*;

verus! {

pub const LBRACE: u8 = 123;
pub const RBRACE: u8 = 125;
pub const LBRACKET: u8 = 91;
pub const RBRACKET: u8 = 93;
pub const COMMA: u8 = 44;

// ---------------------------------------------------------------------------
// Hex digits
// ---------------------------------------------------------------------------

pub open spec fn is_hex_digit(b: u8) -> bool {
    (48 <= b && b <= 57) || (97 <= b && b <= 102)
}

/// The lowercase hex digit for a value below 16.
pub open spec fn hex_digit(n: u8) -> u8
    recommends
        n < 16,
{
    if n < 10 {
        (48 + n) as u8
    } else {
        (87 + n) as u8
    }
}

/// The value of a hex digit byte.
pub open spec fn hex_value(b: u8) -> u8
    recommends
        is_hex_digit(b),
{
    if b <= 57 {
        (b - 48) as u8
    } else {
        (b - 87) as u8
    }
}

pub open spec fn all_hex(s: Seq<u8>) -> bool {
    forall|i: int| 0 <= i < s.len() ==> is_hex_digit(s[i])
}

/// Big-endian fixed-width hex digits of `n`, `w` digits wide.
pub open spec fn hex_fixed(n: nat, w: nat) -> Seq<u8>
    decreases w,
{
    if w == 0 {
        Seq::empty()
    } else {
        hex_fixed(n / 16, (w - 1) as nat).push(hex_digit((n % 16) as u8))
    }
}

/// The value of a big-endian sequence of hex digits.
pub open spec fn hex_seq_value(s: Seq<u8>) -> nat
    decreases s.len(),
{
    if s.len() == 0 {
        0
    } else {
        (hex_seq_value(s.drop_last()) * 16 + hex_value(s.last())) as nat
    }
}

/// Two lowercase hex digits per byte.
pub open spec fn hex_bytes(s: Seq<u8>) -> Seq<u8>
    decreases s.len(),
{
    if s.len() == 0 {
        Seq::empty()
    } else {
        hex_bytes(s.drop_last()) + seq![
            hex_digit((s.last() / 16) as u8),
            hex_digit((s.last() % 16) as u8),
        ]
    }
}

/// The bytes denoted by an even-length sequence of hex digits.
pub open spec fn unhex_bytes(s: Seq<u8>) -> Seq<u8>
    decreases s.len(),
{
    if s.len() < 2 {
        Seq::empty()
    } else {
        unhex_bytes(s.take(s.len() - 2)).push(
            (hex_value(s[s.len() - 2]) * 16 + hex_value(s[s.len() - 1])) as u8,
        )
    }
}

pub open spec fn pow16(w: nat) -> nat
    decreases w,
{
    if w == 0 {
        1nat
    } else {
        16 * pow16((w - 1) as nat)
    }
}

pub proof fn lemma_pow16_mono(a: nat, b: nat)
    requires
        a <= b,
    ensures
        pow16(a) <= pow16(b),
        pow16(a) >= 1,
    decreases b,
{
    if b > 0 {
        if a == b {
            lemma_pow16_mono((a - 1) as nat, (b - 1) as nat);
        } else {
            lemma_pow16_mono(a, (b - 1) as nat);
        }
    }
}

pub proof fn lemma_pow16_32()
    ensures
        pow16(16) == 0x10000000000000000,
        pow16(32) == 0x100000000000000000000000000000000,
{
    reveal_with_fuel(pow16, 33);
}

pub proof fn lemma_hex_fixed(n: nat, w: nat)
    requires
        n < pow16(w),
    ensures
        hex_fixed(n, w).len() == w,
        all_hex(hex_fixed(n, w)),
        hex_seq_value(hex_fixed(n, w)) == n,
    decreases w,
{
    if w == 0 {
    } else {
        let w1 = (w - 1) as nat;
        assert(pow16(w) == 16 * pow16(w1));
        assert(n / 16 < pow16(w1)) by (nonlinear_arith)
            requires
                n < 16 * pow16(w1),
        ;
        lemma_hex_fixed(n / 16, w1);
        let d = (n % 16) as u8;
        let h = hex_fixed(n, w);
        assert(h.drop_last() =~= hex_fixed(n / 16, w1));
        assert(h.last() == hex_digit(d));
        assert(hex_value(hex_digit(d)) == d);
        vstd::arithmetic::div_mod::lemma_fundamental_div_mod(n as int, 16);
        assert(hex_seq_value(h) == (n / 16) * 16 + n % 16);
        assert forall|i: int| 0 <= i < h.len() implies is_hex_digit(h[i]) by {
            if i < h.len() - 1 {
                assert(h[i] == hex_fixed(n / 16, w1)[i]);
            }
        }
    }
}

pub proof fn lemma_hex_seq_value_bound(s: Seq<u8>)
    requires
        all_hex(s),
    ensures
        hex_seq_value(s) < pow16(s.len()),
    decreases s.len(),
{
    if s.len() > 0 {
        assert(forall|i: int| 0 <= i < s.len() - 1 ==> s.drop_last()[i] == s[i]);
        lemma_hex_seq_value_bound(s.drop_last());
        assert(is_hex_digit(s[s.len() - 1]));
        assert(hex_value(s.last()) < 16);
        assert(hex_seq_value(s) < pow16(s.len())) by (nonlinear_arith)
            requires
                hex_seq_value(s) == hex_seq_value(s.drop_last()) * 16 + hex_value(s.last()),
                hex_seq_value(s.drop_last()) < pow16((s.len() - 1) as nat),
                hex_value(s.last()) < 16,
                pow16(s.len()) == 16 * pow16((s.len() - 1) as nat),
        ;
    }
}

pub proof fn lemma_unhex_hex_bytes(s: Seq<u8>)
    ensures
        hex_bytes(s).len() == 2 * s.len(),
        all_hex(hex_bytes(s)),
        unhex_bytes(hex_bytes(s)) == s,
    decreases s.len(),
{
    if s.len() == 0 {
        assert(unhex_bytes(hex_bytes(s)) =~= s);
    } else {
        lemma_unhex_hex_bytes(s.drop_last());
        let b = s.last();
        let h = hex_bytes(s);
        let hi = (b / 16) as u8;
        let lo = (b % 16) as u8;
        assert(h.take(h.len() - 2) =~= hex_bytes(s.drop_last()));
        assert(h[h.len() - 2] == hex_digit(hi));
        assert(h[h.len() - 1] == hex_digit(lo));
        assert(hex_value(hex_digit(hi)) == hi);
        assert(hex_value(hex_digit(lo)) == lo);
        vstd::arithmetic::div_mod::lemma_fundamental_div_mod(b as int, 16);
        assert(unhex_bytes(h) =~= s);
        assert forall|i: int| 0 <= i < h.len() implies is_hex_digit(h[i]) by {
            if i < h.len() - 2 {
                assert(h[i] == hex_bytes(s.drop_last())[i]);
            }
        }
    }
}

// ---------------------------------------------------------------------------
// Executable hex helpers
// ---------------------------------------------------------------------------

/// Appends the fixed-width hex digits of `n` to `out`.
pub fn push_hex_fixed(out: &mut Vec<u8>, n: u128, w: usize)
    ensures
        final(out)@ == old(out)@ + hex_fixed(n as nat, w as nat),
    decreases w,
{
    if w == 0 {
        assert(out@ =~= old(out)@ + hex_fixed(n as nat, 0));
    } else {
        push_hex_fixed(out, n / 16, w - 1);
        let d: u8 = (n % 16) as u8;
        let digit: u8 = if d < 10 {
            48 + d
        } else {
            87 + d
        };
        out.push(digit);
        assert(digit == hex_digit(d));
        assert(out@ =~= old(out)@ + hex_fixed(n as nat, w as nat));
    }
}

/// Appends the hex digits of `data` to `out`, two per byte.
pub fn push_hex_bytes(out: &mut Vec<u8>, data: &Vec<u8>)
    ensures
        final(out)@ == old(out)@ + hex_bytes(data@),
{
    let ghost orig = out@;
    for i in 0..data.len()
        invariant
            out@ == orig + hex_bytes(data@.take(i as int)),
    {
        let b = data[i];
        let hi: u8 = b / 16;
        let lo: u8 = b % 16;
        out.push(if hi < 10 { 48 + hi } else { 87 + hi });
        out.push(if lo < 10 { 48 + lo } else { 87 + lo });
        proof {
            let t = data@.take(i + 1);
            assert(t.drop_last() =~= data@.take(i as int));
            assert(t.last() == data@[i as int]);
            assert(out@ =~= orig + hex_bytes(t));
        }
    }
    proof {
        assert(data@.take(data@.len() as int) =~= data@);
    }
}

/// Reads `w` hex digits at `start`, returning their value, or `None` if a
/// byte is not a lowercase hex digit.
pub fn parse_hex_run(s: &Vec<u8>, start: usize, w: usize) -> (r: Option<u128>)
    requires
        start + w <= s@.len(),
        w <= 32,
    ensures
        match r {
            Some(v) => all_hex(s@.subrange(start as int, start as int + w as int)) && v as nat
                == hex_seq_value(s@.subrange(start as int, start as int + w as int)),
            None => !all_hex(s@.subrange(start as int, start as int + w as int)),
        },
{
    let ghost sub = s@.subrange(start as int, start as int + w as int);
    let slen = s.len();
    let mut acc: u128 = 0;
    for j in 0..w
        invariant
            start + w <= slen,
            slen == s@.len(),
            w <= 32,
            sub == s@.subrange(start as int, start as int + w as int),
            all_hex(sub.take(j as int)),
            acc as nat == hex_seq_value(sub.take(j as int)),
            (acc as nat) < pow16(j as nat),
    {
        let b = s[start + j];
        assert(b == sub[j as int]);
        let v: u8;
        if 48 <= b && b <= 57 {
            v = b - 48;
        } else if 97 <= b && b <= 102 {
            v = b - 87;
        } else {
            assert(!is_hex_digit(sub[j as int]));
            return None;
        }
        assert(v == hex_value(sub[j as int]) && v < 16);
        proof {
            lemma_pow16_mono(j as nat, 31);
            lemma_pow16_mono(31, 32);
            lemma_pow16_32();
            assert(16 * pow16(31nat) == pow16(32nat));
            assert(acc as nat * 16 + v < pow16((j + 1) as nat)) by (nonlinear_arith)
                requires
                    (acc as nat) < pow16(j as nat),
                    v < 16,
                    pow16((j + 1) as nat) == 16 * pow16(j as nat),
            ;
            assert(pow16((j + 1) as nat) <= pow16(32nat)) by {
                lemma_pow16_mono((j + 1) as nat, 32);
            }
        }
        acc = acc * 16 + (v as u128);
        proof {
            let t = sub.take(j + 1);
            assert(t.drop_last() =~= sub.take(j as int));
            assert(t.last() == sub[j as int]);
            assert(acc as nat == hex_seq_value(t));
        }
    }
    proof {
        assert(sub.take(w as int) =~= sub);
    }
    Some(acc)
}

/// Reads the hex digits in `s[start..end]` into bytes, or `None` if one is
/// not a lowercase hex digit.
pub fn parse_hex_bytes(s: &Vec<u8>, start: usize, end: usize) -> (r: Option<Vec<u8>>)
    requires
        start <= end <= s@.len(),
        (end - start) % 2 == 0,
    ensures
        match r {
            Some(v) => all_hex(s@.subrange(start as int, end as int)) && v@ == unhex_bytes(
                s@.subrange(start as int, end as int),
            ),
            None => !all_hex(s@.subrange(start as int, end as int)),
        },
{
    let ghost sub = s@.subrange(start as int, end as int);
    let slen = s.len();
    let mut out: Vec<u8> = Vec::new();
    let n = (end - start) / 2;
    for k in 0..n
        invariant
            start <= end <= slen,
            slen == s@.len(),
            n == (end - start) / 2,
            (end - start) % 2 == 0,
            sub == s@.subrange(start as int, end as int),
            all_hex(sub.take(2 * k as int)),
            out@ == unhex_bytes(sub.take(2 * k as int)),
    {
        let b1 = s[start + 2 * k];
        let b2 = s[start + 2 * k + 1];
        assert(b1 == sub[2 * k as int]);
        assert(b2 == sub[2 * k as int + 1]);
        let v1: u8;
        let v2: u8;
        if 48 <= b1 && b1 <= 57 {
            v1 = b1 - 48;
        } else if 97 <= b1 && b1 <= 102 {
            v1 = b1 - 87;
        } else {
            assert(!is_hex_digit(sub[2 * k as int]));
            return None;
        }
        if 48 <= b2 && b2 <= 57 {
            v2 = b2 - 48;
        } else if 97 <= b2 && b2 <= 102 {
            v2 = b2 - 87;
        } else {
            assert(!is_hex_digit(sub[2 * k as int + 1]));
            return None;
        }
        assert(v1 == hex_value(sub[2 * k as int]) && v1 < 16);
        assert(v2 == hex_value(sub[2 * k as int + 1]) && v2 < 16);
        out.push(v1 * 16 + v2);
        proof {
            let t = sub.take(2 * (k + 1) as int);
            assert(t.take(t.len() - 2) =~= sub.take(2 * k as int));
            assert(t[t.len() - 2] == sub[2 * k as int]);
            assert(t[t.len() - 1] == sub[2 * k as int + 1]);
            assert(out@ =~= unhex_bytes(t));
        }
    }
    proof {
        assert(sub.take(2 * n as int) =~= sub);
    }
    Some(out)
}

// ---------------------------------------------------------------------------
// Records
// ---------------------------------------------------------------------------

/// The bytes of a record are an object whose interior holds no brace, so the
/// array loader can delimit records without understanding them.
pub open spec fn chunk_shaped(s: Seq<u8>) -> bool {
    &&& s.len() >= 2
    &&& s[0] == LBRACE
    &&& s.last() == RBRACE
    &&& forall|i: int| 0 < i < s.len() - 1 ==> s[i] != LBRACE && s[i] != RBRACE
}

/// An entity that can be persisted as one record of a queue file.  The
/// record format is stated over the entity's view.
pub trait Record: View + Sized {
    /// The record bytes that persist an entity with this view.
    spec fn encoded_v(v: Self::V) -> Seq<u8>;

    /// The view a candidate record denotes, if it is well-formed.
    spec fn decoded(s: Seq<u8>) -> Option<Self::V>;

    fn encode(&self) -> (r: Vec<u8>)
        ensures
            r@ == Self::encoded_v(self@),
    ;

    fn decode(s: &Vec<u8>) -> (r: Option<Self>)
        ensures
            match r {
                Some(t) => Self::decoded(s@) == Some(t@),
                None => Self::decoded(s@) is None,
            },
    ;

    /// Every encoded record is a brace-delimited chunk.
    proof fn lemma_shape(v: Self::V)
        ensures
            chunk_shaped(Self::encoded_v(v)),
    ;

    /// Decoding inverts encoding.
    proof fn lemma_round_trip(v: Self::V)
        ensures
            Self::decoded(Self::encoded_v(v)) == Some(v),
    ;
}

/// The views of the elements of an executable sequence.
pub open spec fn views<T: View>(q: Seq<T>) -> Seq<T::V> {
    q.map_values(|t: T| t@)
}

// ---------------------------------------------------------------------------
// Queue files: a JSON array of records
// ---------------------------------------------------------------------------

/// Index of the first occurrence of `b` at or after `from`, or `s.len()`.
pub open spec fn find_byte(s: Seq<u8>, from: int, b: u8) -> int
    decreases s.len() - from when 0 <= from <= s.len()
{
    if from >= s.len() {
        s.len() as int
    } else if s[from] == b {
        from
    } else {
        find_byte(s, from + 1, b)
    }
}

pub proof fn lemma_find_byte(s: Seq<u8>, from: int, b: u8)
    requires
        0 <= from <= s.len(),
    ensures
        from <= find_byte(s, from, b) <= s.len(),
        find_byte(s, from, b) < s.len() ==> s[find_byte(s, from, b)] == b,
        forall|k: int| from <= k < find_byte(s, from, b) ==> s[k] != b,
    decreases s.len() - from,
{
    if from < s.len() && s[from] != b {
        lemma_find_byte(s, from + 1, b);
    }
}

/// The brace-delimited chunks of `s`, scanning from `from`.
pub open spec fn chunks_from(s: Seq<u8>, from: int) -> Seq<Seq<u8>>
    decreases s.len() - from when 0 <= from <= s.len()
{
    let i = find_byte(s, from, LBRACE);
    if i >= s.len() {
        Seq::empty()
    } else {
        let j = find_byte(s, i + 1, RBRACE);
        if from <= i && i + 1 <= j && j < s.len() {
            seq![s.subrange(i, j + 1)] + chunks_from(s, j + 1)
        } else {
            Seq::empty()
        }
    }
}

/// The entities denoted by a sequence of candidate records; a chunk that does
/// not decode is skipped.
pub open spec fn decoded_list<T: Record>(cs: Seq<Seq<u8>>) -> Seq<T::V>
    decreases cs.len(),
{
    if cs.len() == 0 {
        Seq::empty()
    } else {
        match T::decoded(cs[0]) {
            Some(t) => seq![t] + decoded_list::<T>(cs.drop_first()),
            None => decoded_list::<T>(cs.drop_first()),
        }
    }
}

/// Whether the contents carry the top-level array frame: a leading `[` and a
/// trailing `]`.
pub open spec fn framed(s: Seq<u8>) -> bool {
    s.len() >= 2 && s[0] == LBRACKET && s.last() == RBRACKET
}

/// What loading file contents yields: every decodable record, oldest first.
/// Contents without the top-level array frame are no persisted queue at all
/// and load as empty; inside the frame, a record that does not decode is
/// skipped without aborting the load.
pub open spec fn loaded<T: Record>(s: Seq<u8>) -> Seq<T::V> {
    if framed(s) {
        decoded_list::<T>(chunks_from(s, 0))
    } else {
        Seq::empty()
    }
}

/// The file contents that persist a queue.
pub open spec fn saved<T: Record>(q: Seq<T::V>) -> Seq<u8> {
    seq![LBRACKET] + save_tail::<T>(q)
}

/// The records of `q` separated by commas, closed by the bracket.
pub open spec fn save_tail<T: Record>(q: Seq<T::V>) -> Seq<u8>
    decreases q.len(),
{
    if q.len() == 0 {
        seq![RBRACKET]
    } else if q.len() == 1 {
        T::encoded_v(q[0]) + seq![RBRACKET]
    } else {
        T::encoded_v(q[0]) + seq![COMMA] + save_tail::<T>(q.drop_first())
    }
}


/// Index of the first occurrence of `b` at or after `from`.
pub fn find_byte_in(s: &Vec<u8>, from: usize, b: u8) -> (r: usize)
    requires
        from <= s@.len(),
    ensures
        r as int == find_byte(s@, from as int, b),
        from <= r <= s@.len(),
{
    let slen = s.len();
    let mut k = from;
    while k < slen
        invariant
            from <= k <= slen,
            slen == s@.len(),
            find_byte(s@, from as int, b) == find_byte(s@, k as int, b),
        decreases slen - k,
    {
        if s[k] == b {
            return k;
        }
        k = k + 1;
    }
    slen
}

/// Loads file contents: every record chunk that decodes, oldest first.
/// A missing, empty or garbled file therefore yields an empty queue, and a
/// record that does not decode is skipped without aborting the load.
pub fn load_records<T: Record>(s: &Vec<u8>) -> (r: Vec<T>)
    ensures
        views(r@) == loaded::<T>(s@),
{
    let slen = s.len();
    if slen < 2 || s[0] != LBRACKET || s[slen - 1] != RBRACKET {
        proof {
            assert(!framed(s@));
        }
        return Vec::new();
    }
    let mut out: Vec<T> = Vec::new();
    let mut pos: usize = 0;
    loop
        invariant
            framed(s@),
            pos <= slen,
            slen == s@.len(),
            decoded_list::<T>(chunks_from(s@, 0)) == views(out@) + decoded_list::<T>(
                chunks_from(s@, pos as int),
            ),
        decreases slen - pos,
    {
        let i = find_byte_in(s, pos, LBRACE);
        if i >= slen {
            proof {
                assert(chunks_from(s@, pos as int) =~= Seq::<Seq<u8>>::empty());
                assert(views(out@) + Seq::<T::V>::empty() =~= views(out@));
            }
            return out;
        }
        let j = find_byte_in(s, i + 1, RBRACE);
        if j >= slen {
            proof {
                assert(chunks_from(s@, pos as int) =~= Seq::<Seq<u8>>::empty());
                assert(views(out@) + Seq::<T::V>::empty() =~= views(out@));
            }
            return out;
        }
        let mut chunk: Vec<u8> = Vec::new();
        for k in i..j + 1
            invariant
                i + 1 <= j + 1 <= slen,
                slen == s@.len(),
                chunk@ == s@.subrange(i as int, k as int),
        {
            chunk.push(s[k]);
            proof {
                assert(chunk@ =~= s@.subrange(i as int, k + 1));
            }
        }
        proof {
            let cs = chunks_from(s@, pos as int);
            assert(cs == seq![s@.subrange(i as int, j + 1)] + chunks_from(s@, j + 1));
            assert(cs[0] == chunk@);
            assert(cs.drop_first() =~= chunks_from(s@, j + 1));
        }
        let ghost pre = views(out@);
        match T::decode(&chunk) {
            Some(t) => {
                proof {
                    assert(decoded_list::<T>(chunks_from(s@, pos as int)) == seq![t@]
                        + decoded_list::<T>(chunks_from(s@, j + 1)));
                }
                out.push(t);
                proof {
                    assert(views(out@) =~= pre.push(t@));
                    assert(pre + (seq![t@] + decoded_list::<T>(chunks_from(s@, j + 1))) =~= views(
                        out@,
                    ) + decoded_list::<T>(chunks_from(s@, j + 1)));
                }
            },
            None => {
                proof {
                    assert(decoded_list::<T>(chunks_from(s@, pos as int)) == decoded_list::<T>(
                        chunks_from(s@, j + 1),
                    ));
                }
            },
        }
        pos = j + 1;
    }
}

/// Serializes a queue into the file contents that persist it.
pub fn save_records<T: Record>(q: &Vec<T>) -> (r: Vec<u8>)
    ensures
        r@ == saved::<T>(views(q@)),
{
    let ghost qv = views(q@);
    let qlen = q.len();
    let mut out: Vec<u8> = Vec::new();
    out.push(LBRACKET);
    proof {
        assert(qv.skip(0) =~= qv);
        assert(out@ =~= seq![LBRACKET]);
    }
    for i in 0..qlen
        invariant
            qlen == q@.len(),
            qv == views(q@),
            saved::<T>(qv) == out@ + save_tail::<T>(qv.skip(i as int)),
    {
        let ghost pre = out@;
        let ghost rest = qv.skip(i as int);
        let mut e = q[i].encode();
        out.append(&mut e);
        if i + 1 < qlen {
            out.push(COMMA);
        }
        proof {
            assert(rest[0] == qv[i as int]);
            assert(qv[i as int] == q@[i as int]@);
            assert(rest.drop_first() =~= qv.skip(i + 1));
            if i + 1 < qlen {
                assert(save_tail::<T>(rest) == T::encoded_v(qv[i as int]) + seq![COMMA]
                    + save_tail::<T>(qv.skip(i + 1)));
                assert(pre + save_tail::<T>(rest) =~= out@ + save_tail::<T>(qv.skip(i + 1)));
            } else {
                assert(save_tail::<T>(rest) == T::encoded_v(qv[i as int]) + seq![RBRACKET]);
                assert(qv.skip(i + 1) =~= Seq::<T::V>::empty());
                assert(pre + save_tail::<T>(rest) =~= out@ + save_tail::<T>(qv.skip(i + 1)));
            }
        }
    }
    proof {
        assert(qv.skip(qlen as int) =~= Seq::<T::V>::empty());
    }
    out.push(RBRACKET);
    out
}


/// A saved tail is never empty and always closes with the bracket.
proof fn lemma_save_tail_last<T: Record>(q: Seq<T::V>)
    ensures
        save_tail::<T>(q).len() >= 1,
        save_tail::<T>(q).last() == RBRACKET,
    decreases q.len(),
{
    if q.len() > 1 {
        lemma_save_tail_last::<T>(q.drop_first());
    }
}

/// If the bytes of `s` from `from` on are exactly the saved records of `q`
/// (with optionally one non-brace byte in front of them), scanning from
/// `from` recovers `q`.
proof fn lemma_chunks_glue<T: Record>(s: Seq<u8>, from: int, q: Seq<T::V>, skip1: bool)
    requires
        0 <= from <= s.len(),
        !skip1 ==> s.subrange(from, s.len() as int) == save_tail::<T>(q),
        skip1 ==> from < s.len() && s[from] != LBRACE && s.subrange(from + 1, s.len() as int)
            == save_tail::<T>(q),
    ensures
        decoded_list::<T>(chunks_from(s, from)) == q,
    decreases q.len(), (if skip1 { 1int } else { 0int }),
{
    if skip1 {
        let i = find_byte(s, from, LBRACE);
        assert(i == find_byte(s, from + 1, LBRACE));
        lemma_find_byte(s, from + 1, LBRACE);
        if i >= s.len() {
            assert(chunks_from(s, from) =~= chunks_from(s, from + 1));
        } else {
            assert(from + 1 <= i);
            let j = find_byte(s, i + 1, RBRACE);
            if i + 1 <= j && j < s.len() {
                assert(chunks_from(s, from) == seq![s.subrange(i, j + 1)] + chunks_from(s, j + 1));
                assert(chunks_from(s, from + 1) == seq![s.subrange(i, j + 1)] + chunks_from(
                    s,
                    j + 1,
                ));
            } else {
                assert(chunks_from(s, from) =~= Seq::<Seq<u8>>::empty());
                assert(chunks_from(s, from + 1) =~= Seq::<Seq<u8>>::empty());
            }
        }
        lemma_chunks_glue::<T>(s, from + 1, q, false);
    } else if q.len() == 0 {
        lemma_find_byte(s, from, LBRACE);
        let i = find_byte(s, from, LBRACE);
        assert(save_tail::<T>(q) == seq![RBRACKET]);
        assert(s.subrange(from, s.len() as int).len() == 1);
        assert(s.len() - from == 1);
        if i < s.len() {
            assert(s[i] == LBRACE);
            assert(i == from);
            assert(s[from] == save_tail::<T>(q)[0]);
            assert(false);
        }
        assert(decoded_list::<T>(chunks_from(s, from)) =~= Seq::<T::V>::empty());
    } else {
        let t0 = q[0];
        let enc = T::encoded_v(t0);
        T::lemma_shape(t0);
        let tail = save_tail::<T>(q);
        let ghost rest_bytes = if q.len() == 1 {
            seq![RBRACKET]
        } else {
            seq![COMMA] + save_tail::<T>(q.drop_first())
        };
        assert(tail == enc + rest_bytes);
        assert(s[from] == tail[0]);
        assert(s[from] == LBRACE);
        lemma_find_byte(s, from, LBRACE);
        let i = find_byte(s, from, LBRACE);
        assert(i == from) by {
            if i > from {
                assert(s[from] != LBRACE);
            }
        }
        let e = from + enc.len() - 1;
        assert(s[e] == s.subrange(from, s.len() as int)[e - from]);
        assert(s[e] == tail[enc.len() as int - 1]);
        assert(s[e] == enc.last());
        assert(s[e] == RBRACE);
        assert forall|k: int| from < k < e implies s[k] != RBRACE by {
            assert(s[k] == s.subrange(from, s.len() as int)[k - from]);
            assert(tail[k - from] == enc[k - from]);
            assert(enc[k - from] != RBRACE);
        }
        lemma_find_byte(s, from + 1, RBRACE);
        let j = find_byte(s, from + 1, RBRACE);
        assert(j <= e) by {
            if j > e {
                assert(s[e] != RBRACE);
            }
        }
        assert(j == e) by {
            if j < e {
                assert(s[j] == RBRACE);
            }
        }
        assert(tail.len() > enc.len());
        assert(e < s.len());
        assert(chunks_from(s, from) == seq![s.subrange(from, e + 1)] + chunks_from(s, e + 1));
        assert(s.subrange(from, e + 1) =~= enc);
        T::lemma_round_trip(t0);
        if q.len() == 1 {
            assert(s.len() - (e + 1) == 1);
            assert(s[e + 1] == s.subrange(from, s.len() as int)[e + 1 - from]);
            assert(s[e + 1] == rest_bytes[0]);
            assert(s.subrange(e + 1, s.len() as int) =~= save_tail::<T>(Seq::<T::V>::empty()));
            lemma_chunks_glue::<T>(s, e + 1, Seq::<T::V>::empty(), false);
        } else {
            assert(s[e + 1] == s.subrange(from, s.len() as int)[e + 1 - from]);
            assert(s[e + 1] == tail[enc.len() as int]);
            assert(tail[enc.len() as int] == rest_bytes[0]);
            assert(s[e + 1] == COMMA);
            assert(s.len() - (e + 2) == save_tail::<T>(q.drop_first()).len());
            assert forall|m: int| 0 <= m < s.len() - (e + 2) implies s.subrange(
                e + 2,
                s.len() as int,
            )[m] == save_tail::<T>(q.drop_first())[m] by {
                assert(s[e + 2 + m] == s.subrange(from, s.len() as int)[e + 2 + m - from]);
                assert(tail[enc.len() as int + 1 + m] == rest_bytes[1 + m]);
                assert(rest_bytes[1 + m] == save_tail::<T>(q.drop_first())[m]);
            }
            assert(s.subrange(e + 2, s.len() as int) =~= save_tail::<T>(q.drop_first()));
            lemma_chunks_glue::<T>(s, e + 1, q.drop_first(), true);
        }
        let cs = chunks_from(s, from);
        assert(cs[0] == enc);
        assert(cs.drop_first() =~= chunks_from(s, e + 1));
        assert(decoded_list::<T>(cs) == seq![t0] + q.drop_first());
        assert(seq![t0] + q.drop_first() =~= q);
    }
}

/// Round trip: loading the saved image of a queue yields the queue again.
pub proof fn lemma_load_save_round_trip<T: Record>(q: Seq<T::V>)
    ensures
        loaded::<T>(saved::<T>(q)) == q,
{
    let s = saved::<T>(q);
    assert(s[0] == LBRACKET);
    lemma_save_tail_last::<T>(q);
    assert(s.last() == save_tail::<T>(q).last());
    assert(framed(s));
    assert(s.subrange(1, s.len() as int) =~= save_tail::<T>(q));
    lemma_chunks_glue::<T>(s, 0, q, true);
}

/// Round trip through a file-backed queue: after an element joins a queue
/// holding `q`, the persisted image loads back to exactly `q.push(x)` — so a
/// queue rebuilt from that file dequeues the elements of `q` and then `x`;
/// from an empty queue, the first dequeue returns `x` itself.
pub proof fn lemma_persisted_enqueue_round_trip<T: Record>(q: Seq<T::V>, x: T::V)
    ensures
        loaded::<T>(saved::<T>(q.push(x))) == q.push(x),
        q.len() == 0 ==> loaded::<T>(saved::<T>(q.push(x)))[0] == x,
{
    lemma_load_save_round_trip::<T>(q.push(x));
}


pub proof fn lemma_hex_fixed_basic(n: nat, w: nat)
    ensures
        hex_fixed(n, w).len() == w,
        all_hex(hex_fixed(n, w)),
    decreases w,
{
    if w > 0 {
        let w1 = (w - 1) as nat;
        lemma_hex_fixed_basic(n / 16, w1);
        let h = hex_fixed(n, w);
        assert(h.drop_last() =~= hex_fixed(n / 16, w1));
        assert forall|i: int| 0 <= i < h.len() implies is_hex_digit(h[i]) by {
            if i < h.len() - 1 {
                assert(h[i] == hex_fixed(n / 16, w1)[i]);
            } else {
                assert(h[i] == hex_digit((n % 16) as u8));
            }
        }
    }
}

/// Whether the bytes at `at` are exactly `lit`.
pub fn match_lit(s: &Vec<u8>, at: usize, lit: &Vec<u8>) -> (r: bool)
    requires
        at + lit@.len() <= s@.len(),
    ensures
        r <==> s@.subrange(at as int, at as int + lit@.len() as int) == lit@,
{
    let n = lit.len();
    let slen = s.len();
    let ghost sub = s@.subrange(at as int, at as int + lit@.len() as int);
    for j in 0..n
        invariant
            n == lit@.len(),
            at + n <= slen,
            slen == s@.len(),
            sub == s@.subrange(at as int, at as int + lit@.len() as int),
            forall|k: int| 0 <= k < j ==> sub[k] == lit@[k],
    {
        if s[at + j] != lit[j] {
            proof {
                assert(sub[j as int] != lit@[j as int]);
            }
            return false;
        }
        proof {
            assert(sub[j as int] == lit@[j as int]);
        }
    }
    proof {
        assert(sub =~= lit@);
    }
    true
}

/// Timestamps are persisted biased by 2^63 so their on-disk digits are an
/// unsigned fixed-width field.
pub open spec fn ts_code(t: i64) -> nat {
    (t + 0x8000000000000000) as nat
}

/// The timestamp a biased on-disk value denotes.
pub open spec fn ts_of(n: nat) -> i64 {
    (n - 0x8000000000000000) as i64
}

pub fn ts_code_exec(t: i64) -> (r: u64)
    ensures
        r as nat == ts_code(t),
{
    ((t as i128) + 0x8000000000000000i128) as u64
}

pub fn ts_of_exec(n: u64) -> (r: i64)
    ensures
        r == ts_of(n as nat),
{
    ((n as i128) - 0x8000000000000000i128) as i64
}


/// A copy of the given bytes.
pub fn copy_bytes(src: &Vec<u8>) -> (r: Vec<u8>)
    ensures
        r@ == src@,
{
    let n = src.len();
    let mut out: Vec<u8> = Vec::new();
    for i in 0..n
        invariant
            n == src@.len(),
            out@ == src@.take(i as int),
    {
        out.push(src[i]);
        proof {
            assert(out@ =~= src@.take(i + 1));
        }
    }
    proof {
        assert(src@.take(n as int) =~= src@);
    }
    out
}

} // verus!
