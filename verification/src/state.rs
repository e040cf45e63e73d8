//! The state easyenv carries between hook invocations, and its encoding as
//! one base64 token safe for a single shell `export` assignment.
use vstd::prelude::*;
use vstd::utf8::{encode_utf8, decode_utf8, valid_utf8};
use base64::Engine as _;
use crate::bytes::{le_bytes_u32, le_bytes_u64, le_u32_at, le_u64_at, lemma_le_u32_round_trip, lemma_le_u64_round_trip, push_u32_le, push_u64_le, push_all};
use crate::keymap::{EntryView, ManagedMap, ManagedVar, PriorValue, entries_map};

verus! {

broadcast use {vstd::utf8::encode_utf8_valid_utf8, vstd::utf8::encode_utf8_decode_utf8};

/// Bumped whenever the wire format changes.
pub const FORMAT_VERSION: u8 = 1;

/// Everything easyenv needs to remember between shell-hook invocations.
#[derive(Debug, Clone, PartialEq, Eq)]
pub struct EasyenvState {
    pub managed: ManagedMap,
    pub signature: u64,
}

// --- the byte format ----------------------------------------------------

/// The bytes of one entry: length-prefixed key, then a tag and, when a
/// prior value exists, the length-prefixed value.
pub open spec fn entry_bytes(e: EntryView) -> Seq<u8> {
    let kb = encode_utf8(e.0);
    le_bytes_u32(kb.len() as u32) + kb + match e.1 {
        None => seq![0u8],
        Some(v) => seq![1u8] + le_bytes_u32(encode_utf8(v).len() as u32) + encode_utf8(v),
    }
}

pub open spec fn entries_bytes(es: Seq<EntryView>) -> Seq<u8>
    decreases es.len(),
{
    if es.len() == 0 {
        Seq::empty()
    } else {
        entries_bytes(es.drop_last()) + entry_bytes(es.last())
    }
}

/// The whole byte stream: version, signature, entry count, entries.
pub open spec fn state_bytes(signature: u64, es: Seq<EntryView>) -> Seq<u8> {
    seq![FORMAT_VERSION] + le_bytes_u64(signature) + le_bytes_u32(es.len() as u32) + entries_bytes(es)
}

/// Reads one entry from the front of `b`: the entry and how many bytes it
/// used, or `None` when `b` does not start with a well-formed entry.
pub open spec fn parse_entry(b: Seq<u8>) -> Option<(EntryView, int)> {
    if b.len() < 4 {
        None
    } else {
        let kl = le_u32_at(b, 0) as int;
        if b.len() < 4 + kl {
            None
        } else {
            let kb = b.subrange(4, 4 + kl);
            if !valid_utf8(kb) || b.len() < 5 + kl {
                None
            } else if b[4 + kl] == 0 {
                Some(((decode_utf8(kb), None), 5 + kl))
            } else if b[4 + kl] == 1 {
                if b.len() < 9 + kl {
                    None
                } else {
                    let vl = le_u32_at(b, 5 + kl) as int;
                    if b.len() < 9 + kl + vl {
                        None
                    } else {
                        let vb = b.subrange(9 + kl, 9 + kl + vl);
                        if !valid_utf8(vb) {
                            None
                        } else {
                            Some(((decode_utf8(kb), Some(decode_utf8(vb))), 9 + kl + vl))
                        }
                    }
                }
            } else {
                None
            }
        }
    }
}

/// Reads `n` entries from the front of `b` (bytes after them are ignored).
pub open spec fn parse_entries(b: Seq<u8>, n: nat) -> Option<Seq<EntryView>>
    decreases n,
{
    if n == 0 {
        Some(Seq::empty())
    } else {
        match parse_entry(b) {
            None => None,
            Some((e, used)) => match parse_entries(b.skip(used), (n - 1) as nat) {
                None => None,
                Some(rest) => Some(seq![e] + rest),
            },
        }
    }
}

/// Reads a whole state: its signature and its entries in stored order.
pub open spec fn parse_state(b: Seq<u8>) -> Option<(u64, Seq<EntryView>)> {
    if b.len() < 13 || b[0] != FORMAT_VERSION {
        None
    } else {
        match parse_entries(b.skip(13), le_u32_at(b, 9) as nat) {
            None => None,
            Some(es) => Some((le_u64_at(b, 1), es)),
        }
    }
}

/// What a token decodes to: the signature and the managed map, or `None`.
pub open spec fn decoded_view(token: Seq<char>) -> Option<(u64, Map<Seq<char>, Option<Seq<char>>>)> {
    match base64_standard_decoding(token) {
        None => None,
        Some(b) => match parse_state(b) {
            None => None,
            Some((sig, es)) => Some((sig, entries_map(es))),
        },
    }
}

/// The token that `encode` produces for a signature and entries.
pub open spec fn encoded_token(signature: u64, es: Seq<EntryView>) -> Seq<char> {
    base64_standard_encoding(state_bytes(signature, es))
}

/// Every length the format stores fits its 32-bit field.
pub open spec fn fits_format(es: Seq<EntryView>) -> bool {
    &&& es.len() <= u32::MAX
    &&& forall|i: int| 0 <= i < es.len() ==> {
        &&& encode_utf8(#[trigger] es[i].0).len() <= u32::MAX
        &&& (es[i].1 matches Some(v) ==> encode_utf8(v).len() <= u32::MAX)
    }
}

// --- base64 and UTF-8, through their crates -----------------------------

/// The standard-alphabet, padded base64 text of some bytes.
pub uninterp spec fn base64_standard_encoding(bytes: Seq<u8>) -> Seq<char>;

/// The bytes that standard-alphabet, padded base64 text stands for, or
/// `None` where the text is not valid base64.
pub uninterp spec fn base64_standard_decoding(text: Seq<char>) -> Option<Seq<u8>>;

#[verifier::external_type_specification]
#[verifier::external_body]
pub struct ExDecodeError(base64::DecodeError);

/// Calls `base64::engine::general_purpose::STANDARD.encode`. Claims that
/// the result is the standard base64 text of the bytes, and that the same
/// engine decodes that text back to exactly these bytes.
#[verifier::external_body]
fn base64_encode(bytes: &[u8]) -> (text: String)
    ensures
        text@ == base64_standard_encoding(bytes@),
        base64_standard_decoding(text@) == Some(bytes@),
{
    base64::engine::general_purpose::STANDARD.encode(bytes)
}

/// Calls `base64::engine::general_purpose::STANDARD.decode`. Claims that
/// it succeeds exactly where the text is valid base64, with the bytes the
/// text stands for.
#[verifier::external_body]
fn base64_decode(text: &str) -> (r: Result<Vec<u8>, base64::DecodeError>)
    ensures
        r is Ok <==> base64_standard_decoding(text@) is Some,
        r matches Ok(v) ==> base64_standard_decoding(text@) == Some(v@),
{
    base64::engine::general_purpose::STANDARD.decode(text)
}

/// Calls `String::from_utf8`. Claims that it succeeds exactly on valid
/// UTF-8, with the characters the bytes encode.
#[verifier::external_body]
fn string_from_utf8(bytes: Vec<u8>) -> (r: Option<String>)
    ensures
        r is Some <==> valid_utf8(bytes@),
        r matches Some(s) ==> s@ == decode_utf8(bytes@),
{
    String::from_utf8(bytes).ok()
}

// --- readers --------------------------------------------------------------

pub fn read_u8(bytes: &[u8], pos: &mut usize) -> (r: Option<u8>)
    ensures
        r matches Some(x) ==> old(pos) < bytes@.len() && x == bytes@[*old(pos) as int] && *final(pos) == *old(pos) + 1,
        r is None ==> *old(pos) >= bytes@.len() && *final(pos) == *old(pos),
{
    if *pos >= bytes.len() {
        return None;
    }
    let b = bytes[*pos];
    *pos = *pos + 1;
    Some(b)
}

pub fn read_u32(bytes: &[u8], pos: &mut usize) -> (r: Option<u32>)
    ensures
        r matches Some(x) ==> *old(pos) + 4 <= bytes@.len() && x == le_u32_at(bytes@, *old(pos) as int) && *final(pos) == *old(pos) + 4,
        r is None ==> *old(pos) + 4 > bytes@.len() && *final(pos) == *old(pos),
{
    if *pos > bytes.len() || bytes.len() - *pos < 4 {
        return None;
    }
    let p = *pos;
    let x = (bytes[p] as u32) | ((bytes[p + 1] as u32) << 8u32) | ((bytes[p + 2] as u32) << 16u32) | ((bytes[p + 3] as u32) << 24u32);
    *pos = p + 4;
    Some(x)
}

pub fn read_u64(bytes: &[u8], pos: &mut usize) -> (r: Option<u64>)
    ensures
        r matches Some(x) ==> *old(pos) + 8 <= bytes@.len() && x == le_u64_at(bytes@, *old(pos) as int) && *final(pos) == *old(pos) + 8,
        r is None ==> *old(pos) + 8 > bytes@.len() && *final(pos) == *old(pos),
{
    if *pos > bytes.len() || bytes.len() - *pos < 8 {
        return None;
    }
    let p = *pos;
    let lo = (bytes[p] as u32) | ((bytes[p + 1] as u32) << 8u32) | ((bytes[p + 2] as u32) << 16u32) | ((bytes[p + 3] as u32) << 24u32);
    let hi = (bytes[p + 4] as u32) | ((bytes[p + 5] as u32) << 8u32) | ((bytes[p + 6] as u32) << 16u32) | ((bytes[p + 7] as u32) << 24u32);
    *pos = p + 8;
    Some((lo as u64) | ((hi as u64) << 32u64))
}

pub fn read_bytes(bytes: &[u8], pos: &mut usize, len: usize) -> (r: Option<Vec<u8>>)
    ensures
        r matches Some(v) ==> *old(pos) + len <= bytes@.len() && v@ == bytes@.subrange(*old(pos) as int, *old(pos) + len) && *final(pos) == *old(pos) + len,
        r is None ==> *old(pos) + len > bytes@.len() && *final(pos) == *old(pos),
{
    if *pos > bytes.len() || bytes.len() - *pos < len {
        return None;
    }
    let start = *pos;
    let mut out: Vec<u8> = Vec::new();
    let mut i: usize = 0;
    while i < len
        invariant
            start + len <= bytes@.len(),
            bytes@.len() == bytes.len(),
            i <= len,
            out@ == bytes@.subrange(start as int, start + i),
        decreases len - i,
    {
        out.push(bytes[start + i]);
        i = i + 1;
        assert(out@ =~= bytes@.subrange(start as int, start + i));
    }
    *pos = start + len;
    Some(out)
}


pub proof fn lemma_le_u32_skip(b: Seq<u8>, p: int, q: int)
    requires
        0 <= p,
        0 <= q,
        p + q + 4 <= b.len(),
    ensures
        le_u32_at(b.skip(p), q) == le_u32_at(b, p + q),
{
    let s = b.skip(p);
    assert(s[q] == b[p + q] && s[q + 1] == b[p + q + 1] && s[q + 2] == b[p + q + 2] && s[q + 3] == b[p + q + 3]);
}

/// Reads one entry at `pos`, exactly as `parse_entry` reads the bytes from
/// `pos` on.
fn read_entry(bytes: &[u8], pos: &mut usize) -> (r: Option<(String, PriorValue)>)
    requires
        *old(pos) <= bytes@.len(),
    ensures
        match parse_entry(bytes@.skip(*old(pos) as int)) {
            None => r is None,
            Some((e, used)) => r matches Some((k, p)) && (k@, p@) == e && *final(pos) == *old(pos) + used,
        },
{
    let ghost p0 = *pos as int;
    let ghost b = bytes@.skip(p0);
    let keylen = match read_u32(bytes, pos) {
        Some(x) => x,
        None => return None,
    };
    proof {
        lemma_le_u32_skip(bytes@, p0, 0);
    }
    let kb = match read_bytes(bytes, pos, keylen as usize) {
        Some(v) => v,
        None => return None,
    };
    let ghost kl = keylen as int;
    assert(kb@ =~= b.subrange(4, 4 + kl));
    let key = match string_from_utf8(kb) {
        Some(k) => k,
        None => return None,
    };
    let tag = match read_u8(bytes, pos) {
        Some(t) => t,
        None => return None,
    };
    assert(tag == b[4 + kl]);
    if tag == 0 {
        Some((key, PriorValue::Unset))
    } else if tag == 1 {
        let vallen = match read_u32(bytes, pos) {
            Some(x) => x,
            None => return None,
        };
        proof {
            lemma_le_u32_skip(bytes@, p0, 5 + kl);
        }
        let vb = match read_bytes(bytes, pos, vallen as usize) {
            Some(v) => v,
            None => return None,
        };
        assert(vb@ =~= b.subrange(9 + kl, 9 + kl + vallen as int));
        let val = match string_from_utf8(vb) {
            Some(v) => v,
            None => return None,
        };
        Some((key, PriorValue::SetTo(val)))
    } else {
        None
    }
}

impl EasyenvState {
    /// No managed variables and a zero signature.
    pub fn empty() -> (s: EasyenvState)
        ensures
            s.managed.wf(),
            s.managed@ == Map::<Seq<char>, Option<Seq<char>>>::empty(),
            s.managed.entry_seq().len() == 0,
            s.signature == 0,
    {
        EasyenvState { managed: ManagedMap::new(), signature: 0 }
    }

    /// Encodes as a version-tagged, length-prefixed byte stream, base64'd
    /// into one token. A length over 32 bits is stored truncated, as the
    /// format has 32-bit length fields.
    pub fn encode(&self) -> (token: String)
        requires
            self.managed.wf(),
        ensures
            token@ == encoded_token(self.signature, self.managed.entry_seq()),
            base64_standard_decoding(token@) == Some(state_bytes(self.signature, self.managed.entry_seq())),
            fits_format(self.managed.entry_seq()) ==> decoded_view(token@) == Some((self.signature, self.managed@)),
    {
        let ghost es = self.managed.entry_seq();
        let mut buf: Vec<u8> = Vec::new();
        buf.push(FORMAT_VERSION);
        push_u64_le(&mut buf, self.signature);
        let n = self.managed.len();
        #[verifier::truncate]
        let count = n as u32;
        push_u32_le(&mut buf, count);
        let ghost header = buf@;
        assert(header =~= seq![FORMAT_VERSION] + le_bytes_u64(self.signature) + le_bytes_u32(es.len() as u32));
        let mut i: usize = 0;
        while i < n
            invariant
                n == es.len(),
                es == self.managed.entry_seq(),
                i <= n,
                buf@ == header + entries_bytes(es.take(i as int)),
            decreases n - i,
        {
            let (key, mv) = self.managed.entry(i);
            let ghost before = buf@;
            let kb = key.as_str().as_bytes();
            #[verifier::truncate]
            let klen = kb.len() as u32;
            push_u32_le(&mut buf, klen);
            push_all(&mut buf, kb);
            match &mv.prior {
                PriorValue::Unset => {
                    buf.push(0u8);
                },
                PriorValue::SetTo(v) => {
                    buf.push(1u8);
                    let vb = v.as_str().as_bytes();
                    #[verifier::truncate]
                    let vlen = vb.len() as u32;
                    push_u32_le(&mut buf, vlen);
                    push_all(&mut buf, vb);
                },
            }
            proof {
                assert(es.take(i + 1).drop_last() =~= es.take(i as int));
                assert(es.take(i + 1).last() == es[i as int]);
                assert(buf@ =~= before + entry_bytes(es[i as int]));
            }
            i = i + 1;
        }
        assert(es.take(n as int) =~= es);
        assert(buf@ =~= state_bytes(self.signature, es));
        let token = base64_encode(buf.as_slice());
        proof {
            self.managed.lemma_wf();
            if fits_format(es) {
                law_state_bytes_round_trip(self.signature, es);
            }
        }
        token
    }

    /// Decodes a token; `None` on any malformed or incompatible token
    /// (callers treat that as an empty state).
    pub fn decode(token: &str) -> (r: Option<EasyenvState>)
        ensures
            r is Some <==> decoded_view(token@) is Some,
            r matches Some(st) ==> st.managed.wf() && decoded_view(token@) == Some((st.signature, st.managed@)),
    {
        let bytes = match base64_decode(token) {
            Ok(b) => b,
            Err(_) => return None,
        };
        let ghost b = bytes@;
        let mut pos: usize = 0;
        let version = match read_u8(bytes.as_slice(), &mut pos) {
            Some(v) => v,
            None => return None,
        };
        if version != FORMAT_VERSION {
            return None;
        }
        let signature = match read_u64(bytes.as_slice(), &mut pos) {
            Some(v) => v,
            None => return None,
        };
        let count32 = match read_u32(bytes.as_slice(), &mut pos) {
            Some(v) => v,
            None => return None,
        };
        let count = count32 as usize;
        let ghost tail = b.skip(13);
        let mut managed = ManagedMap::new();
        let ghost mut parsed: Seq<EntryView> = Seq::empty();
        let mut i: usize = 0;
        assert(b.skip(pos as int) == tail);
        while i < count
            invariant
                b == bytes@,
                b.len() >= 13,
                b[0] == FORMAT_VERSION,
                base64_standard_decoding(token@) == Some(b),
                signature == le_u64_at(b, 1),
                pos <= b.len(),
                i <= count,
                count == le_u32_at(b, 9),
                tail == b.skip(13),
                parsed.len() == i,
                managed.wf(),
                managed@ == entries_map(parsed),
                parse_entries(tail, count as nat) == match parse_entries(b.skip(pos as int), (count - i) as nat) {
                    None => None,
                    Some(rest) => Some(parsed + rest),
                },
            decreases count - i,
        {
            let ghost p0 = pos as int;
            let ghost n0 = (count - i) as nat;
            let entry = read_entry(bytes.as_slice(), &mut pos);
            match entry {
                None => {
                    proof {
                        assert(parse_entries(b.skip(p0), n0) is None);
                        assert(parse_entries(tail, count as nat) is None);
                    }
                    return None;
                },
                Some((key, prior)) => {
                    let ghost e: EntryView = (key@, prior@);
                    proof {
                        let used = match parse_entry(b.skip(p0)) {
                            Some((_, u)) => u,
                            None => 0,
                        };
                        assert(b.skip(p0).skip(used) =~= b.skip(pos as int));
                        assert(parsed.push(e).drop_last() =~= parsed);
                        assert(parsed + (seq![e] + parse_entries(b.skip(pos as int), (n0 - 1) as nat)->0) =~= parsed.push(e) + parse_entries(b.skip(pos as int), (n0 - 1) as nat)->0);
                        parsed = parsed.push(e);
                    }
                    managed.insert(key, ManagedVar { prior });
                },
            }
            i = i + 1;
        }
        assert(parsed + Seq::<EntryView>::empty() =~= parsed);
        Some(EasyenvState { managed, signature })
    }
}


// --- the round trip -------------------------------------------------------

proof fn lemma_entries_bytes_front(es: Seq<EntryView>)
    requires
        es.len() > 0,
    ensures
        entries_bytes(es) == entry_bytes(es[0]) + entries_bytes(es.drop_first()),
    decreases es.len(),
{
    if es.len() == 1 {
        assert(es.drop_last() =~= Seq::<EntryView>::empty());
        assert(es.drop_first() =~= Seq::<EntryView>::empty());
        assert(entries_bytes(es) =~= entry_bytes(es[0]) + entries_bytes(es.drop_first()));
    } else {
        lemma_entries_bytes_front(es.drop_last());
        assert(es.drop_last().drop_first() =~= es.drop_first().drop_last());
        assert(es.drop_last()[0] == es[0]);
        assert(es.drop_first().last() == es.last());
        assert(entries_bytes(es) =~= entry_bytes(es[0]) + entries_bytes(es.drop_first()));
    }
}

proof fn lemma_parse_entry_round_trip(e: EntryView, rest: Seq<u8>)
    requires
        encode_utf8(e.0).len() <= u32::MAX,
        e.1 matches Some(v) ==> encode_utf8(v).len() <= u32::MAX,
    ensures
        parse_entry(entry_bytes(e) + rest) == Some((e, entry_bytes(e).len() as int)),
{
    let kb = encode_utf8(e.0);
    let kl = kb.len() as int;
    let l4 = le_bytes_u32(kb.len() as u32);
    let b = entry_bytes(e) + rest;
    assert(b.subrange(0, 4) =~= l4);
    lemma_le_u32_round_trip(kb.len() as u32, b, 0);
    assert(b.subrange(4, 4 + kl) =~= kb);
    match e.1 {
        None => {
            assert(b[4 + kl] == 0);
        },
        Some(v) => {
            let vb = encode_utf8(v);
            let vl = vb.len() as int;
            assert(b[4 + kl] == 1);
            assert(b.subrange(5 + kl, 9 + kl) =~= le_bytes_u32(vb.len() as u32));
            lemma_le_u32_round_trip(vb.len() as u32, b, 5 + kl);
            assert(b.subrange(9 + kl, 9 + kl + vl) =~= vb);
        },
    }
}

#[verifier::spinoff_prover]
proof fn lemma_parse_entries_round_trip(es: Seq<EntryView>, rest: Seq<u8>)
    requires
        fits_format(es),
    ensures
        parse_entries(entries_bytes(es) + rest, es.len()) == Some(es),
    decreases es.len(),
{
    if es.len() == 0 {
        assert(es =~= Seq::<EntryView>::empty());
    } else {
        let e = es[0];
        let tl = es.drop_first();
        lemma_entries_bytes_front(es);
        assert(fits_format(tl)) by {
            assert forall|i: int| 0 <= i < tl.len() implies {
                &&& encode_utf8(#[trigger] tl[i].0).len() <= u32::MAX
                &&& (tl[i].1 matches Some(v) ==> encode_utf8(v).len() <= u32::MAX)
            } by {
                assert(tl[i] == es[i + 1]);
            }
        }
        let b = entries_bytes(es) + rest;
        assert(b =~= entry_bytes(e) + (entries_bytes(tl) + rest));
        lemma_parse_entry_round_trip(e, entries_bytes(tl) + rest);
        assert(b.skip(entry_bytes(e).len() as int) =~= entries_bytes(tl) + rest);
        lemma_parse_entries_round_trip(tl, rest);
        assert(seq![e] + tl =~= es);
    }
}

/// Round trip of the state format: the bytes that `encode` base64s read
/// back, by the same format `decode` reads, as exactly the signature and
/// the entries that were written -- whenever every length fits the
/// format's 32-bit fields.
pub proof fn law_state_bytes_round_trip(signature: u64, es: Seq<EntryView>)
    requires
        fits_format(es),
    ensures
        parse_state(state_bytes(signature, es)) == Some((signature, es)),
{
    let b = state_bytes(signature, es);
    assert(b.subrange(1, 9) =~= le_bytes_u64(signature));
    lemma_le_u64_round_trip(signature, b, 1);
    assert(b.subrange(9, 13) =~= le_bytes_u32(es.len() as u32));
    lemma_le_u32_round_trip(es.len() as u32, b, 9);
    assert(b.skip(13) =~= entries_bytes(es) + Seq::<u8>::empty());
    lemma_parse_entries_round_trip(es, Seq::<u8>::empty());
}

/// Decoding never fails hard: a token decodes to `None` when it is not
/// valid standard base64, when its bytes are too short for the header or
/// start with another format version, and when an entry runs past the end,
/// holds a key or value that is not UTF-8, or has a prior tag other than 0
/// or 1.
pub proof fn law_decode_rejects_malformed(token: Seq<char>, b: Seq<u8>)
    ensures
        base64_standard_decoding(token) is None ==> decoded_view(token) is None,
        base64_standard_decoding(token) == Some(b) && (b.len() < 13 || b[0] != FORMAT_VERSION) ==> decoded_view(token) is None,
        b.len() < 4 ==> parse_entry(b) is None,
        b.len() >= 4 && b.len() < 5 + le_u32_at(b, 0) ==> parse_entry(b) is None,
        b.len() >= 5 + le_u32_at(b, 0) && !valid_utf8(b.subrange(4, 4 + le_u32_at(b, 0))) ==> parse_entry(b) is None,
        b.len() >= 5 + le_u32_at(b, 0) && b[4 + le_u32_at(b, 0)] != 0 && b[4 + le_u32_at(b, 0)] != 1 ==> parse_entry(b) is None,
        b.len() >= 5 + le_u32_at(b, 0) && b[4 + le_u32_at(b, 0)] == 1 && (b.len() < 9 + le_u32_at(b, 0)
            || b.len() < 9 + le_u32_at(b, 0) + le_u32_at(b, 5 + le_u32_at(b, 0))
            || !valid_utf8(b.subrange(9 + le_u32_at(b, 0), 9 + le_u32_at(b, 0) + le_u32_at(b, 5 + le_u32_at(b, 0)))))
            ==> parse_entry(b) is None,
{
}

/// Where the record after the first `k` well-formed records starts, or
/// `None` if one of those `k` records is malformed.
pub open spec fn record_offset(r: Seq<u8>, k: nat) -> Option<int>
    decreases k,
{
    if k == 0 {
        Some(0)
    } else {
        match parse_entry(r) {
            None => None,
            Some((_, used)) => match record_offset(r.skip(used), (k - 1) as nat) {
                None => None,
                Some(o) => Some(used + o),
            },
        }
    }
}

proof fn lemma_parse_entry_used(b: Seq<u8>)
    ensures
        parse_entry(b) matches Some((_, used)) ==> 0 < used <= b.len(),
{
}

proof fn lemma_record_offset_bound(r: Seq<u8>, k: nat)
    ensures
        record_offset(r, k) matches Some(o) ==> 0 <= o <= r.len(),
    decreases k,
{
    if k > 0 {
        lemma_parse_entry_used(r);
        if let Some((_, used)) = parse_entry(r) {
            lemma_record_offset_bound(r.skip(used), (k - 1) as nat);
        }
    }
}

proof fn lemma_bad_record(r: Seq<u8>, n: nat, k: nat, o: int)
    requires
        k < n,
        record_offset(r, k) == Some(o),
        parse_entry(r.skip(o)) is None,
    ensures
        parse_entries(r, n) is None,
    decreases k,
{
    if k == 0 {
        assert(r.skip(0) =~= r);
    } else {
        let (e, used) = parse_entry(r)->0;
        lemma_parse_entry_used(r);
        let rest = r.skip(used);
        let o2 = record_offset(rest, (k - 1) as nat)->0;
        lemma_record_offset_bound(rest, (k - 1) as nat);
        assert(o == used + o2);
        assert(rest.skip(o2) =~= r.skip(o));
        lemma_bad_record(rest, (n - 1) as nat, (k - 1) as nat, o2);
    }
}

/// Decoding rejects a malformed record wherever it stands: when the first
/// `k` records are well formed but the next of the `count` records the
/// header announces runs past the end, holds a key or value that is not
/// UTF-8, or has a prior tag other than 0 or 1 (the cases
/// `law_decode_rejects_malformed` lists for one record), the token
/// decodes to `None`.
pub proof fn law_decode_rejects_bad_record(token: Seq<char>, b: Seq<u8>, k: nat, o: int)
    requires
        base64_standard_decoding(token) == Some(b),
        b.len() >= 13,
        k < le_u32_at(b, 9),
        record_offset(b.skip(13), k) == Some(o),
        parse_entry(b.skip(13).skip(o)) is None,
    ensures
        decoded_view(token) is None,
{
    lemma_bad_record(b.skip(13), le_u32_at(b, 9) as nat, k, o);
}

} // verus!
