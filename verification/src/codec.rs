//! The wire codec and the append transition.
//!
//! Wire format: a leading entry count (little-endian `u32`), then that many
//! entries, each a little-endian `u32` byte length followed by the entry's
//! UTF-8 bytes. The encoder writes the empty log as the empty byte string,
//! its canonical form; the decoder also accepts the explicit zero count with
//! nothing after it, the form a count-prefixed writer produces for an empty
//! sequence. Every other buffer is accepted exactly when it is, in full, the
//! encoding of some well-formed log.

use vstd::prelude::*;
use vstd::utf8::valid_utf8;

use crate::log::{wf_entries, Log};
use crate::utf8_check::is_valid_utf8;
use crate::wire::{
    le_bytes, le_value, lemma_le_bytes_of_le_value, lemma_le_value_of_le_bytes, push_u32_le,
    read_u32_le,
};

verus! {

/// Why an operation on the persisted log failed.
#[derive(Clone, Copy, Debug, PartialEq, Eq)]
pub enum AppendError {
    /// The buffer is non-empty and is not the encoding of any well-formed log.
    DecodeError,
    /// The payload is not valid UTF-8.
    InvalidPayloadEncoding,
    /// The updated log cannot be re-encoded: an entry's byte length or the
    /// entry count no longer fits the wire format's `u32` fields.
    EncodeError,
}

/// The encoding of one entry: its byte length, then its bytes.
pub open spec fn spec_encode_entry(e: Seq<u8>) -> Seq<u8> {
    le_bytes(e.len() as u32) + e
}

/// The concatenated encodings of a sequence of entries.
pub open spec fn spec_encode_entries(entries: Seq<Seq<u8>>) -> Seq<u8>
    decreases entries.len(),
{
    if entries.len() == 0 {
        Seq::empty()
    } else {
        spec_encode_entry(entries[0]) + spec_encode_entries(entries.drop_first())
    }
}

/// The encoding of a whole log: empty for the empty log, else the entry
/// count followed by the entries.
pub open spec fn spec_encode(entries: Seq<Seq<u8>>) -> Seq<u8> {
    if entries.len() == 0 {
        Seq::empty()
    } else {
        le_bytes(entries.len() as u32) + spec_encode_entries(entries)
    }
}

/// Decodes exactly `n` entries from `bytes`, requiring every byte to be
/// consumed. Rejects truncated length fields, entry bytes that run past the
/// end, entries that are not valid UTF-8, and trailing bytes.
pub open spec fn spec_decode_entries(bytes: Seq<u8>, n: nat) -> Option<Seq<Seq<u8>>>
    decreases n,
{
    if n == 0 {
        if bytes.len() == 0 {
            Some(Seq::empty())
        } else {
            None
        }
    } else if bytes.len() < 4 {
        None
    } else {
        let len = le_value(bytes.take(4)) as int;
        if bytes.len() - 4 < len {
            None
        } else {
            let entry = bytes.subrange(4, 4 + len);
            if !valid_utf8(entry) {
                None
            } else {
                match spec_decode_entries(bytes.skip(4 + len), (n - 1) as nat) {
                    Some(rest) => Some(seq![entry] + rest),
                    None => None,
                }
            }
        }
    }
}

/// Decodes a whole buffer: the empty buffer is the empty log; any other
/// buffer must consist of an entry count followed by exactly that many
/// well-formed entries. In particular a buffer that is exactly a zero count
/// also decodes to the empty log.
pub open spec fn spec_decode(bytes: Seq<u8>) -> Option<Seq<Seq<u8>>> {
    if bytes.len() == 0 {
        Some(Seq::empty())
    } else if bytes.len() < 4 {
        None
    } else {
        spec_decode_entries(bytes.skip(4), le_value(bytes.take(4)) as nat)
    }
}

/// Prepends already-decoded entries to the outcome of decoding the rest of a
/// buffer.
spec fn with_prefix(prefix: Seq<Seq<u8>>, rest: Option<Seq<Seq<u8>>>) -> Option<Seq<Seq<u8>>> {
    match rest {
        Some(r) => Some(prefix + r),
        None => None,
    }
}

/// Deserializes a buffer. Succeeds exactly on [`spec_decode`]'s domain: the
/// empty buffer and the bare zero count yield the empty log, and any other
/// buffer must be, in full, the encoding of a well-formed log.
pub fn decode(bytes: &[u8]) -> (r: Result<Log, AppendError>)
    ensures
        match r {
            Ok(log) => log.wf() && spec_decode(bytes@) == Some(log@),
            Err(e) => e == AppendError::DecodeError && spec_decode(bytes@) is None,
        },
{
    if bytes.len() == 0 {
        let log = Log::new();
        assert(spec_decode(bytes@) == Some(log@));
        return Ok(log);
    }
    if bytes.len() < 4 {
        return Err(AppendError::DecodeError);
    }
    let n = read_u32_le(bytes, 0);
    proof {
        assert(bytes@.take(4) =~= bytes@.subrange(0, 4));
    }
    let mut log = Log::new();
    let mut pos: usize = 4;
    let mut i: u32 = 0;
    proof {
        assert(bytes@.skip(4) =~= bytes@.skip(pos as int));
        assert(with_prefix(log@, spec_decode_entries(bytes@.skip(pos as int), n as nat))
            == spec_decode(bytes@)) by {
            if spec_decode_entries(bytes@.skip(pos as int), n as nat) is Some {
                let r = spec_decode_entries(bytes@.skip(pos as int), n as nat)->Some_0;
                assert(log@ + r =~= r);
            }
        }
    }
    while i < n
        invariant
            i <= n,
            4 <= pos <= bytes@.len(),
            log.wf(),
            log@.len() == i,
            spec_decode(bytes@) == with_prefix(
                log@,
                spec_decode_entries(bytes@.skip(pos as int), (n - i) as nat),
            ),
        decreases n - i,
    {
        let ghost sp = bytes@.skip(pos as int);
        let ghost m = (n - i) as nat;
        if bytes.len() - pos < 4 {
            return Err(AppendError::DecodeError);
        }
        let len = read_u32_le(bytes, pos);
        proof {
            assert(sp.take(4) =~= bytes@.subrange(pos as int, pos as int + 4));
        }
        if (bytes.len() - pos) - 4 < len as usize {
            return Err(AppendError::DecodeError);
        }
        let entry_slice = vstd::slice::slice_subrange(bytes, pos + 4, pos + 4 + len as usize);
        proof {
            assert(sp.subrange(4, 4 + len as int) =~= entry_slice@);
        }
        if !is_valid_utf8(entry_slice) {
            return Err(AppendError::DecodeError);
        }
        let entry = vstd::slice::slice_to_vec(entry_slice);
        let new_pos = pos + 4 + len as usize;
        proof {
            assert(sp.skip(4 + len as int) =~= bytes@.skip(new_pos as int));
            assert(spec_decode_entries(sp, m) == (match spec_decode_entries(
                bytes@.skip(new_pos as int),
                (m - 1) as nat,
            ) {
                Some(rest) => Some(seq![entry@] + rest),
                None => None,
            }));
            let inner = spec_decode_entries(bytes@.skip(new_pos as int), (m - 1) as nat);
            if inner is Some {
                let r = inner->Some_0;
                assert(log@ + (seq![entry@] + r) =~= log@.push(entry@) + r);
            }
        }
        log.push_entry(entry);
        pos = new_pos;
        i = i + 1;
    }
    if pos != bytes.len() {
        return Err(AppendError::DecodeError);
    }
    proof {
        assert(bytes@.skip(pos as int) =~= Seq::<u8>::empty());
        assert(log@ + Seq::<Seq<u8>>::empty() =~= log@);
    }
    Ok(log)
}

/// Entry encodings concatenate: encoding `a + b` is encoding `a` then `b`.
proof fn lemma_encode_entries_concat(a: Seq<Seq<u8>>, b: Seq<Seq<u8>>)
    ensures
        spec_encode_entries(a + b) =~= spec_encode_entries(a) + spec_encode_entries(b),
    decreases a.len(),
{
    if a.len() == 0 {
        assert(a + b =~= b);
    } else {
        lemma_encode_entries_concat(a.drop_first(), b);
        assert((a + b).drop_first() =~= a.drop_first() + b);
        assert(spec_encode_entries(a + b) =~= spec_encode_entry(a[0]) + spec_encode_entries(
            (a + b).drop_first(),
        ));
    }
}

/// Extending the encoded prefix by one entry.
proof fn lemma_encode_entries_snoc(entries: Seq<Seq<u8>>, i: int)
    requires
        0 <= i < entries.len(),
    ensures
        spec_encode_entries(entries.take(i + 1)) =~= spec_encode_entries(entries.take(i))
            + spec_encode_entry(entries[i]),
    decreases i,
{
    lemma_encode_entries_concat(entries.take(i), seq![entries[i]]);
    assert(entries.take(i + 1) =~= entries.take(i) + seq![entries[i]]);
    assert(seq![entries[i]].drop_first() =~= Seq::<Seq<u8>>::empty());
    assert(spec_encode_entries(seq![entries[i]]) =~= spec_encode_entry(entries[i])
        + spec_encode_entries(Seq::<Seq<u8>>::empty()));
    assert(spec_encode_entry(entries[i]) + Seq::<u8>::empty() =~= spec_encode_entry(entries[i]));
}

/// Decoding the encoding of `n` well-formed entries gives them back.
#[verifier::rlimit(100)]
proof fn lemma_decode_entries_of_encode(entries: Seq<Seq<u8>>)
    requires
        wf_entries(entries),
    ensures
        spec_decode_entries(spec_encode_entries(entries), entries.len()) == Some(entries),
    decreases entries.len(),
{
    if entries.len() == 0 {
        assert(spec_decode_entries(spec_encode_entries(entries), 0) == Some(
            Seq::<Seq<u8>>::empty(),
        ));
        assert(entries =~= Seq::<Seq<u8>>::empty());
    } else {
        let e = entries[0];
        let rest = entries.drop_first();
        assert(wf_entries(rest)) by {
            assert forall|i: int| 0 <= i < rest.len() implies (#[trigger] rest[i]).len()
                <= u32::MAX && valid_utf8(rest[i]) by {
                assert(rest[i] == entries[i + 1]);
            }
        }
        lemma_decode_entries_of_encode(rest);
        let enc = spec_encode_entries(entries);
        lemma_le_value_of_le_bytes(e.len() as u32);
        assert(enc =~= le_bytes(e.len() as u32) + e + spec_encode_entries(rest));
        assert(enc.take(4) =~= le_bytes(e.len() as u32));
        let len = le_value(enc.take(4)) as int;
        assert(len == e.len());
        assert(enc.subrange(4, 4 + len) =~= e);
        assert(enc.skip(4 + len) =~= spec_encode_entries(rest));
        assert(seq![e] + rest =~= entries);
    }
}

/// Round trip: decoding the encoding of any well-formed log yields exactly
/// that log, entries in the same order.
pub proof fn lemma_decode_of_encode(entries: Seq<Seq<u8>>)
    requires
        wf_entries(entries),
    ensures
        spec_decode(spec_encode(entries)) == Some(entries),
{
    if entries.len() == 0 {
        assert(spec_decode(spec_encode(entries)) == Some(Seq::<Seq<u8>>::empty()));
        assert(entries =~= Seq::<Seq<u8>>::empty());
    } else {
        lemma_decode_entries_of_encode(entries);
        let enc = spec_encode(entries);
        lemma_le_value_of_le_bytes(entries.len() as u32);
        assert(enc.take(4) =~= le_bytes(entries.len() as u32));
        assert(le_value(enc.take(4)) == entries.len());
        assert(enc.skip(4) =~= spec_encode_entries(entries));
    }
}

/// Exactness for a fixed entry count: a buffer that decodes as `n` entries
/// is, byte for byte, their encoding.
#[verifier::rlimit(100)]
proof fn lemma_decode_entries_exact(bytes: Seq<u8>, n: nat)
    requires
        spec_decode_entries(bytes, n) is Some,
    ensures
        spec_decode_entries(bytes, n)->Some_0.len() == n,
        bytes =~= spec_encode_entries(spec_decode_entries(bytes, n)->Some_0),
    decreases n,
{
    let s = spec_decode_entries(bytes, n)->Some_0;
    if n == 0 {
        assert(bytes =~= spec_encode_entries(s));
    } else {
        let len = le_value(bytes.take(4)) as int;
        let entry = bytes.subrange(4, 4 + len);
        lemma_decode_entries_exact(bytes.skip(4 + len), (n - 1) as nat);
        let rest = spec_decode_entries(bytes.skip(4 + len), (n - 1) as nat)->Some_0;
        assert(s == seq![entry] + rest);
        assert(spec_encode_entries(s) == spec_encode_entry(entry) + spec_encode_entries(rest)) by {
            assert(s[0] == entry);
            assert(s.drop_first() =~= rest);
        }
        assert(entry.len() == len);
        assert(bytes.take(4) == le_bytes(entry.len() as u32)) by {
            lemma_le_bytes_of_le_value(bytes.take(4));
            assert(le_bytes(le_value(bytes.take(4))) =~= bytes.take(4));
        }
        assert(bytes.take(4 + len) =~= bytes.take(4) + entry);
        assert(bytes =~= bytes.take(4 + len) + bytes.skip(4 + len));
        assert(spec_encode_entry(entry) == bytes.take(4) + entry);
        assert(bytes == spec_encode_entries(s));
    }
}

/// The entries a buffer decodes to are well formed: each fits a `u32`
/// length field and is valid UTF-8.
proof fn lemma_decode_entries_wf(bytes: Seq<u8>, n: nat)
    requires
        spec_decode_entries(bytes, n) is Some,
    ensures
        ({
            let s = spec_decode_entries(bytes, n)->Some_0;
            forall|i: int|
                0 <= i < s.len() ==> (#[trigger] s[i]).len() <= u32::MAX && valid_utf8(s[i])
        }),
    decreases n,
{
    let s = spec_decode_entries(bytes, n)->Some_0;
    if n != 0 {
        let len = le_value(bytes.take(4)) as int;
        let entry = bytes.subrange(4, 4 + len);
        lemma_decode_entries_wf(bytes.skip(4 + len), (n - 1) as nat);
        let rest = spec_decode_entries(bytes.skip(4 + len), (n - 1) as nat)->Some_0;
        assert(s == seq![entry] + rest);
        assert forall|i: int| 0 <= i < s.len() implies (#[trigger] s[i]).len() <= u32::MAX
            && valid_utf8(s[i]) by {
            if i == 0 {
                assert(s[i] == entry);
            } else {
                assert(s[i] == rest[i - 1]);
            }
        }
    }
}

/// Exactness: any buffer that decodes at all is, byte for byte, the encoding
/// of the log it decodes to, except that the empty log has one extra
/// decodable form, the bare zero count. With [`lemma_decode_of_encode`] this
/// pins the decoder's domain completely: the encoder's outputs, the bare
/// zero count, and nothing else.
pub proof fn lemma_encode_of_decode(bytes: Seq<u8>)
    requires
        spec_decode(bytes) is Some,
    ensures
        wf_entries(spec_decode(bytes)->Some_0),
        spec_decode(bytes)->Some_0.len() > 0 ==> bytes =~= spec_encode(spec_decode(bytes)->Some_0),
        spec_decode(bytes)->Some_0.len() == 0 ==> (bytes =~= Seq::<u8>::empty() || bytes =~= le_bytes(
            0,
        )),
{
    let s = spec_decode(bytes)->Some_0;
    if bytes.len() == 0 {
        assert(bytes =~= Seq::<u8>::empty());
    } else {
        let n = le_value(bytes.take(4));
        lemma_decode_entries_exact(bytes.skip(4), n as nat);
        lemma_decode_entries_wf(bytes.skip(4), n as nat);
        assert(s == spec_decode_entries(bytes.skip(4), n as nat)->Some_0);
        lemma_le_bytes_of_le_value(bytes.take(4));
        assert(bytes.take(4) =~= le_bytes(s.len() as u32));
        assert(bytes =~= bytes.take(4) + bytes.skip(4));
        if s.len() == 0 {
            assert(bytes.skip(4) =~= spec_encode_entries(s));
            assert(bytes.skip(4) =~= Seq::<u8>::empty());
            assert(bytes =~= le_bytes(0));
        } else {
            assert(bytes =~= spec_encode(s));
        }
    }
}

/// The empty buffer and the empty log correspond under the codec: the one
/// decodes to the other, and the other encodes to the one. The explicit
/// zero count, the form a count-prefixed writer produces for an empty
/// sequence, also decodes to the empty log.
pub proof fn lemma_empty_codec()
    ensures
        spec_decode(Seq::<u8>::empty()) == Some(Seq::<Seq<u8>>::empty()),
        spec_encode(Seq::<Seq<u8>>::empty()) == Seq::<u8>::empty(),
        spec_decode(le_bytes(0)) == Some(Seq::<Seq<u8>>::empty()),
{
    lemma_le_value_of_le_bytes(0);
    assert(le_bytes(0).skip(4) =~= Seq::<u8>::empty());
}

/// Appending one well-formed entry to a well-formed log: the grown log is
/// well formed, its encoding decodes back to it, its length grows by exactly
/// one, the new entry is last, and every prior entry keeps its position.
pub proof fn lemma_append_round_trip(entries: Seq<Seq<u8>>, payload: Seq<u8>)
    requires
        wf_entries(entries),
        entries.len() < u32::MAX,
        payload.len() <= u32::MAX,
        valid_utf8(payload),
    ensures
        wf_entries(entries.push(payload)),
        spec_decode(spec_encode(entries.push(payload))) == Some(entries.push(payload)),
        entries.push(payload).len() == entries.len() + 1,
        entries.push(payload)[entries.len() as int] == payload,
        forall|i: int| 0 <= i < entries.len() ==> entries.push(payload)[i] == entries[i],
{
    lemma_decode_of_encode(entries.push(payload));
}

/// Serializes the log. The result is exactly [`spec_encode`] of the log's
/// entries; in particular the empty log encodes to the empty byte string.
pub fn encode(log: &Log) -> (out: Vec<u8>)
    requires
        log.wf(),
    ensures
        out@ == spec_encode(log@),
{
    let mut out: Vec<u8> = Vec::new();
    let n = log.len();
    if n == 0 {
        assert(out@ =~= spec_encode(log@));
        return out;
    }
    push_u32_le(&mut out, n as u32);
    proof {
        assert(out@ =~= le_bytes(n as u32) + spec_encode_entries(log@.take(0)));
    }
    let mut i: usize = 0;
    while i < n
        invariant
            i <= n,
            n == log@.len(),
            n <= u32::MAX,
            log.wf(),
            out@ =~= le_bytes(n as u32) + spec_encode_entries(log@.take(i as int)),
        decreases n - i,
    {
        let e = log.entry(i);
        push_u32_le(&mut out, e.len() as u32);
        push_bytes(&mut out, e);
        proof {
            lemma_encode_entries_snoc(log@, i as int);
            assert(out@ =~= le_bytes(n as u32) + spec_encode_entries(log@.take(i + 1)));
        }
        i = i + 1;
    }
    proof {
        assert(log@.take(n as int) =~= log@);
    }
    out
}

/// The single state transition: decodes `buffer`, validates `payload` as
/// UTF-8 text, appends it as the final entry, and writes the full
/// re-encoded log back over `buffer`.
///
/// Success and each error are pinned down exactly: the call succeeds if and
/// only if the buffer decodes, the payload is valid UTF-8, and the grown
/// log still fits the wire format's `u32` count and length fields; on
/// success the buffer holds exactly the encoding of the old log with the
/// payload appended, and on any failure the buffer is left untouched.
pub fn append(buffer: &mut Vec<u8>, payload: &[u8]) -> (r: Result<(), AppendError>)
    ensures
        r is Ok <==> (spec_decode(old(buffer)@) is Some && valid_utf8(payload@) && payload@.len()
            <= u32::MAX && spec_decode(old(buffer)@)->Some_0.len() < u32::MAX),
        r is Ok ==> final(buffer)@ == spec_encode(
            spec_decode(old(buffer)@)->Some_0.push(payload@),
        ),
        r is Ok ==> spec_decode(final(buffer)@) == Some(
            spec_decode(old(buffer)@)->Some_0.push(payload@),
        ),
        r is Err ==> final(buffer)@ == old(buffer)@,
        r == Err::<(), AppendError>(AppendError::DecodeError) <==> spec_decode(old(buffer)@)
            is None,
        r == Err::<(), AppendError>(AppendError::InvalidPayloadEncoding) <==> (spec_decode(
            old(buffer)@,
        ) is Some && !valid_utf8(payload@)),
        r == Err::<(), AppendError>(AppendError::EncodeError) <==> (spec_decode(old(buffer)@)
            is Some && valid_utf8(payload@) && (payload@.len() > u32::MAX || spec_decode(
            old(buffer)@,
        )->Some_0.len() >= u32::MAX)),
{
    let mut log = match decode(buffer.as_slice()) {
        Ok(log) => log,
        Err(e) => { return Err(e) },
    };
    if !is_valid_utf8(payload) {
        return Err(AppendError::InvalidPayloadEncoding);
    }
    if payload.len() > u32::MAX as usize {
        return Err(AppendError::EncodeError);
    }
    if log.len() >= u32::MAX as usize {
        return Err(AppendError::EncodeError);
    }
    let entry = vstd::slice::slice_to_vec(payload);
    log.push_entry(entry);
    let out = encode(&log);
    *buffer = out;
    proof {
        lemma_decode_of_encode(log@);
    }
    Ok(())
}

/// Appends all of `bytes` to `out`.
fn push_bytes(out: &mut Vec<u8>, bytes: &Vec<u8>)
    ensures
        final(out)@ =~= old(out)@ + bytes@,
{
    let ghost orig: Seq<u8> = out@;
    let mut j: usize = 0;
    while j < bytes.len()
        invariant
            j <= bytes@.len(),
            out@ =~= orig + bytes@.take(j as int),
        decreases bytes@.len() - j,
    {
        out.push(bytes[j]);
        proof {
            assert(bytes@.take(j + 1) =~= bytes@.take(j as int).push(bytes@[j as int]));
        }
        j = j + 1;
    }
    proof {
        assert(bytes@.take(bytes@.len() as int) =~= bytes@);
    }
}

} // verus!
