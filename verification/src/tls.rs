//! TLS record and ClientHello decoding.
//!
//! The layers mirror the wire format: a length-prefixed field reader, a
//! record parser, a ClientHello parser, an extension walk, and a server_name
//! (SNI) decoder. Every length is read as a big-endian integer over an
//! explicit byte range of the current buffer, and every slice is taken only
//! after the range and the declared length have been checked against the
//! buffer, so no step can read out of bounds.

use vstd::prelude::*;
use vstd::slice::{slice_index_get, slice_subrange};

verus! {

/// Why a buffer could not be decoded as a ClientHello carrying an SNI
/// hostname. Each failure aborts the decode at once; none is fatal to the
/// caller, which decides its own fallback.
#[derive(Clone, Copy, Debug, PartialEq, Eq, Structural)]
pub enum SniError {
    /// A declared length claims more bytes than remain in the buffer, or a
    /// length field itself lies outside the buffer.
    InsufficientData,
    /// The record or handshake protocol version is not the supported one.
    UnsupportedVersion,
    /// The record content type is not handshake.
    NotHandshake,
    /// The handshake message type is not ClientHello.
    NotClientHello,
    /// The server name bytes are not valid UTF-8 text.
    InvalidUtf8Hostname,
}

/// The value of a byte sequence read as a big-endian unsigned integer,
/// accumulated most significant byte first, with no bit-width limit.
pub open spec fn be_val(s: Seq<u8>) -> nat
    decreases s.len(),
{
    if s.len() == 0 {
        0
    } else {
        (be_val(s.drop_last()) * 256 + s.last()) as nat
    }
}

/// A prefix of a byte sequence never reads as more than the whole sequence.
pub proof fn lemma_be_val_prefix_le(s: Seq<u8>, k: int)
    requires
        0 <= k <= s.len(),
    ensures
        be_val(s.take(k)) <= be_val(s),
    decreases s.len() - k,
{
    if k == s.len() {
        assert(s.take(k) =~= s);
    } else {
        assert(s.take(k + 1).drop_last() =~= s.take(k));
        assert(s.take(k + 1).last() == s[k]);
        lemma_be_val_prefix_le(s, k + 1);
    }
}

/// The byte range `[start, end)` lies inside the buffer.
pub open spec fn len_range_ok(data: Seq<u8>, start: int, end: int) -> bool {
    0 <= start <= end <= data.len()
}

/// The length declared by the big-endian field at `[start, end)`.
pub open spec fn field_len(data: Seq<u8>, start: int, end: int) -> nat
    recommends
        len_range_ok(data, start, end),
{
    be_val(data.subrange(start, end))
}

/// The length field at `[start, end)` is in bounds and declares no more
/// bytes than remain after it.
pub open spec fn field_ok(data: Seq<u8>, start: int, end: int) -> bool {
    len_range_ok(data, start, end) && end + field_len(data, start, end) <= data.len()
}

/// The declared-length bytes that follow the length field at `[start, end)`.
pub open spec fn field_of(data: Seq<u8>, start: int, end: int) -> Seq<u8>
    recommends
        field_ok(data, start, end),
{
    data.subrange(end, end + field_len(data, start, end))
}

/// What remains of the buffer after the length field at `[start, end)` and
/// the field it declares.
pub open spec fn rest_after(data: Seq<u8>, start: int, end: int) -> Seq<u8>
    recommends
        field_ok(data, start, end),
{
    data.subrange(end + field_len(data, start, end), data.len() as int)
}

/// Reads the big-endian length held in `data[start..end]`, then returns the
/// slice of that many bytes immediately after offset `end`. Fails with
/// `InsufficientData` when the range is out of bounds or fewer than the
/// declared bytes remain.
pub fn slice_by_len_at_range<'a>(data: &'a [u8], start: usize, end: usize) -> (r: Result<
    &'a [u8],
    SniError,
>)
    ensures
        r is Ok <==> field_ok(data@, start as int, end as int),
        r matches Ok(field) ==> field@ == field_of(data@, start as int, end as int),
        r matches Err(e) ==> e == SniError::InsufficientData,
{
    if !(start <= end && end <= data.len()) {
        return Err(SniError::InsufficientData);
    }
    let ghost len_bytes = data@.subrange(start as int, end as int);
    let mut acc: u128 = 0;
    let mut i: usize = start;
    while i < end
        invariant
            start <= i <= end <= data@.len(),
            len_bytes == data@.subrange(start as int, end as int),
            acc == be_val(len_bytes.take(i - start)),
        decreases end - i,
    {
        if acc > data.len() as u128 {
            proof {
                lemma_be_val_prefix_le(len_bytes, i - start);
            }
            return Err(SniError::InsufficientData);
        }
        let byte = *slice_index_get(data, i);
        proof {
            assert(len_bytes.take(i + 1 - start).drop_last() =~= len_bytes.take(i - start));
            assert(len_bytes.take(i + 1 - start).last() == data@[i as int]);
        }
        acc = acc * 256 + (byte as u128);
        i = i + 1;
    }
    proof {
        assert(len_bytes.take(end - start) =~= len_bytes);
    }
    if acc > (data.len() - end) as u128 {
        return Err(SniError::InsufficientData);
    }
    let declared_len = acc as usize;
    Ok(slice_subrange(data, end, end + declared_len))
}

/// Skips the length field at `data[start..end]` together with the field it
/// declares, and returns the rest of the buffer. The single primitive used
/// to move past session id, cipher suites, compression methods and each
/// extension entry without retaining their contents.
pub fn truncate_before<'a>(data: &'a [u8], start: usize, end: usize) -> (r: Result<
    &'a [u8],
    SniError,
>)
    ensures
        r is Ok <==> field_ok(data@, start as int, end as int),
        r matches Ok(rest) ==> rest@ == rest_after(data@, start as int, end as int),
        r matches Err(e) ==> e == SniError::InsufficientData,
{
    let field = match slice_by_len_at_range(data, start, end) {
        Ok(field) => field,
        Err(e) => {
            return Err(e);
        },
    };
    let n = data.len();
    proof {
        assert(field@.len() == field_len(data@, start as int, end as int));
        assert(end + field@.len() <= n);
    }
    Ok(slice_subrange(data, end + field.len(), n))
}

/// A decoded TLS record header together with its payload. `fragment` is a
/// non-owning view into the caller's buffer and never extends past it.
#[derive(Clone, Copy, Debug)]
pub struct TlsRecord<'a> {
    pub content_type: u8,
    pub major_version: u8,
    pub minor_version: u8,
    pub fragment: &'a [u8],
}

/// The buffer holds a complete record: a five-byte header whose big-endian
/// length field at `[3, 5)` declares no more bytes than follow it.
pub open spec fn record_ok(data: Seq<u8>) -> bool {
    field_ok(data, 3, 5)
}

/// The record payload: the bytes the length field at `[3, 5)` declares.
pub open spec fn spec_fragment(data: Seq<u8>) -> Seq<u8> {
    field_of(data, 3, 5)
}

/// Splits a buffer into the fields of one TLS record: content type, the two
/// protocol version bytes, and the length-prefixed fragment. No semantic
/// check of content type or version happens here; that is the ClientHello
/// parser's responsibility.
pub fn parse_tls_record<'a>(data: &'a [u8]) -> (r: Result<TlsRecord<'a>, SniError>)
    ensures
        r is Ok <==> record_ok(data@),
        r matches Ok(rec) ==> rec.content_type == data@[0] && rec.major_version == data@[1]
            && rec.minor_version == data@[2] && rec.fragment@ == spec_fragment(data@),
        r matches Err(e) ==> e == SniError::InsufficientData,
{
    let fragment = match slice_by_len_at_range(data, 3, 5) {
        Ok(fragment) => fragment,
        Err(e) => {
            return Err(e);
        },
    };
    Ok(
        TlsRecord {
            content_type: *slice_index_get(data, 0),
            major_version: *slice_index_get(data, 1),
            minor_version: *slice_index_get(data, 2),
            fragment,
        },
    )
}

/// The decoded result of a ClientHello: the hostname of its server_name
/// extension, when one was present. The text is the one heap-allocated copy
/// the decoder makes, so the result outlives the input buffer.
#[derive(Debug, PartialEq, Eq)]
pub struct TlsClientHello {
    pub server_name: Option<String>,
}

/// The handshake body: the bytes the three-byte length field at `[1, 4)` of
/// the record fragment declares.
pub open spec fn spec_hello_body(data: Seq<u8>) -> Seq<u8> {
    field_of(spec_fragment(data), 1, 4)
}

/// The handshake body after the session id, whose one-byte length stands at
/// offset 34, past the two version bytes and the 32-byte random.
pub open spec fn spec_after_session_id(data: Seq<u8>) -> Seq<u8> {
    rest_after(spec_hello_body(data), 34, 35)
}

/// The remainder after the cipher suite list and its two-byte length.
pub open spec fn spec_after_cipher_suites(data: Seq<u8>) -> Seq<u8> {
    rest_after(spec_after_session_id(data), 0, 2)
}

/// The remainder after the compression method list and its one-byte length.
pub open spec fn spec_after_compression(data: Seq<u8>) -> Seq<u8> {
    rest_after(spec_after_cipher_suites(data), 0, 1)
}

/// The extensions block. Its length is read as a one-byte field: the TLS
/// wire format declares two bytes here, but this decoder keeps the one-byte
/// read on purpose, as a known deviation to be validated against real
/// traffic rather than silently corrected.
pub open spec fn spec_extensions(data: Seq<u8>) -> Seq<u8> {
    field_of(spec_after_compression(data), 0, 1)
}

/// One step of the extension walk: the entry's type occupies bytes
/// `[0, 2)`, its data is the field declared by the two-byte length at
/// `[2, 4)`, and the walk continues after that field.
///
/// A server_name entry (type `0x00 0x00`) carries, inside its data, a
/// two-byte server-name-list length, a one-byte name type at offset 2, and
/// a length-prefixed name whose two-byte length stands at `[3, 5)`. Only a
/// name whose type byte is zero (host_name) is taken; an entry whose name
/// type differs, or whose data is too short to hold one, leaves the result
/// as it was. The walk runs on: of several server_name entries the last
/// well-formed one wins.
pub open spec fn spec_scan_extensions(exts: Seq<u8>, found: Option<Seq<u8>>) -> Result<
    Option<Seq<u8>>,
    SniError,
>
    decreases exts.len(),
{
    if exts.len() <= 4 {
        Ok(found)
    } else if !field_ok(exts, 2, 4) {
        Err(SniError::InsufficientData)
    } else {
        let ext_data = field_of(exts, 2, 4);
        let rest = rest_after(exts, 2, 4);
        if exts[0] == 0 && exts[1] == 0 {
            if ext_data.len() >= 3 && ext_data[2] == 0 {
                if !field_ok(ext_data, 3, 5) {
                    Err(SniError::InsufficientData)
                } else if vstd::utf8::valid_utf8(field_of(ext_data, 3, 5)) {
                    spec_scan_extensions(rest, Some(field_of(ext_data, 3, 5)))
                } else {
                    Err(SniError::InvalidUtf8Hostname)
                }
            } else {
                spec_scan_extensions(rest, found)
            }
        } else {
            spec_scan_extensions(rest, found)
        }
    }
}

/// What decoding a buffer as a ClientHello yields: the server name bytes of
/// the extension walk on success, or the first failure met, in the order
/// the decoder checks: record framing, record version, content type,
/// handshake message type, handshake body framing, body version, then the
/// cursor walk to the extensions.
pub open spec fn spec_parse_client_hello(data: Seq<u8>) -> Result<Option<Seq<u8>>, SniError> {
    if !record_ok(data) {
        Err(SniError::InsufficientData)
    } else if data[1] != 3 {
        Err(SniError::UnsupportedVersion)
    } else if data[0] != 22 {
        Err(SniError::NotHandshake)
    } else if !(spec_fragment(data).len() > 0 && spec_fragment(data)[0] == 1) {
        Err(SniError::NotClientHello)
    } else if !field_ok(spec_fragment(data), 1, 4) {
        Err(SniError::InsufficientData)
    } else if !(spec_hello_body(data).len() > 0 && spec_hello_body(data)[0] == 3) {
        Err(SniError::UnsupportedVersion)
    } else if !field_ok(spec_hello_body(data), 34, 35) {
        Err(SniError::InsufficientData)
    } else if !field_ok(spec_after_session_id(data), 0, 2) {
        Err(SniError::InsufficientData)
    } else if !field_ok(spec_after_cipher_suites(data), 0, 1) {
        Err(SniError::InsufficientData)
    } else if !field_ok(spec_after_compression(data), 0, 1) {
        Err(SniError::InsufficientData)
    } else {
        spec_scan_extensions(spec_extensions(data), None)
    }
}

/// How an executable decode result relates to the specification: the same
/// error, or the same presence of a hostname, whose text is the UTF-8
/// decoding of the server name bytes the specification selects.
pub open spec fn hello_result_matches(r: Result<TlsClientHello, SniError>, data: Seq<u8>) -> bool {
    match spec_parse_client_hello(data) {
        Ok(found) => match found {
            None => r matches Ok(hello) && hello.server_name is None,
            Some(name) => r matches Ok(hello) && (hello.server_name matches Some(s) && s@
                == vstd::utf8::decode_utf8(name)),
        },
        Err(e) => r == Err::<TlsClientHello, SniError>(e),
    }
}

/// Relies on core::str::from_utf8: it succeeds exactly when the bytes are a
/// valid UTF-8 encoding, and then returns the text those bytes encode.
#[verifier::external_body]
fn utf8_str<'a>(bytes: &'a [u8]) -> (r: Option<&'a str>)
    ensures
        r is Some <==> vstd::utf8::valid_utf8(bytes@),
        r matches Some(s) ==> s@ == vstd::utf8::decode_utf8(bytes@),
{
    core::str::from_utf8(bytes).ok()
}

/// Decodes a buffer as a TLS record holding a ClientHello and extracts the
/// hostname of its server_name extension, if one is present. A ClientHello
/// without one succeeds with no hostname: a client may omit SNI.
pub fn parse_client_hello(data: &[u8]) -> (r: Result<TlsClientHello, SniError>)
    ensures
        hello_result_matches(r, data@),
{
    let rec = match parse_tls_record(data) {
        Ok(rec) => rec,
        Err(e) => {
            return Err(e);
        },
    };
    if rec.major_version != 3 {
        return Err(SniError::UnsupportedVersion);
    }
    if rec.content_type != 22 {
        return Err(SniError::NotHandshake);
    }
    let fragment = rec.fragment;
    if fragment.len() == 0 || *slice_index_get(fragment, 0) != 1 {
        return Err(SniError::NotClientHello);
    }
    let body = match slice_by_len_at_range(fragment, 1, 4) {
        Ok(body) => body,
        Err(e) => {
            return Err(e);
        },
    };
    if body.len() == 0 || *slice_index_get(body, 0) != 3 {
        return Err(SniError::UnsupportedVersion);
    }
    let after_session_id = match truncate_before(body, 34, 35) {
        Ok(rest) => rest,
        Err(e) => {
            return Err(e);
        },
    };
    let after_cipher_suites = match truncate_before(after_session_id, 0, 2) {
        Ok(rest) => rest,
        Err(e) => {
            return Err(e);
        },
    };
    let after_compression = match truncate_before(after_cipher_suites, 0, 1) {
        Ok(rest) => rest,
        Err(e) => {
            return Err(e);
        },
    };
    let mut exts = match slice_by_len_at_range(after_compression, 0, 1) {
        Ok(exts) => exts,
        Err(e) => {
            return Err(e);
        },
    };
    let ghost exts_block = exts@;
    proof {
        assert(spec_parse_client_hello(data@) == spec_scan_extensions(
            exts_block,
            None::<Seq<u8>>,
        ));
    }
    let mut server_name: Option<String> = None;
    let ghost mut found: Option<Seq<u8>> = None;
    while exts.len() > 4
        invariant
            spec_parse_client_hello(data@) == spec_scan_extensions(exts_block, None::<Seq<u8>>),
            spec_scan_extensions(exts@, found) == spec_scan_extensions(
                exts_block,
                None::<Seq<u8>>,
            ),
            match found {
                None => server_name is None,
                Some(name) => vstd::utf8::valid_utf8(name) && (server_name matches Some(s) && s@
                    == vstd::utf8::decode_utf8(name)),
            },
        decreases exts@.len(),
    {
        let ext_type_hi = *slice_index_get(exts, 0);
        let ext_type_lo = *slice_index_get(exts, 1);
        let ext_data = match slice_by_len_at_range(exts, 2, 4) {
            Ok(ext_data) => ext_data,
            Err(e) => {
                return Err(e);
            },
        };
        let rest = match truncate_before(exts, 2, 4) {
            Ok(rest) => rest,
            Err(e) => {
                return Err(e);
            },
        };
        if ext_type_hi == 0 && ext_type_lo == 0 {
            if ext_data.len() >= 3 && *slice_index_get(ext_data, 2) == 0 {
                let raw_name = match slice_by_len_at_range(ext_data, 3, 5) {
                    Ok(raw_name) => raw_name,
                    Err(e) => {
                        return Err(e);
                    },
                };
                match utf8_str(raw_name) {
                    Some(name) => {
                        server_name = Some(name.to_owned());
                        proof {
                            found = Some(raw_name@);
                        }
                    },
                    None => {
                        return Err(SniError::InvalidUtf8Hostname);
                    },
                }
            }
        }
        exts = rest;
    }
    Ok(TlsClientHello { server_name })
}

/// Law: cutting a buffer whose record spans it exactly, at any byte boundary
/// before its end, makes the decode fail with `InsufficientData`.
pub proof fn lemma_truncated_hello_insufficient(data: Seq<u8>, cut: int)
    requires
        record_ok(data),
        5 + field_len(data, 3, 5) == data.len(),
        0 <= cut < data.len(),
    ensures
        spec_parse_client_hello(data.take(cut)) == Err::<Option<Seq<u8>>, SniError>(
            SniError::InsufficientData,
        ),
{
    if cut >= 5 {
        assert(data.take(cut).subrange(3, 5) =~= data.subrange(3, 5));
    }
}

/// Law: a complete record whose version byte is the supported one but whose
/// content type is not the handshake one is rejected as `NotHandshake`.
pub proof fn lemma_not_handshake(data: Seq<u8>)
    requires
        record_ok(data),
        data[1] == 3,
        data[0] != 22,
    ensures
        spec_parse_client_hello(data) == Err::<Option<Seq<u8>>, SniError>(SniError::NotHandshake),
{
}

/// Law: a complete record whose major version byte is not the supported one
/// is rejected as `UnsupportedVersion`, whatever else the buffer holds.
pub proof fn lemma_unsupported_version(data: Seq<u8>)
    requires
        record_ok(data),
        data[1] != 3,
    ensures
        spec_parse_client_hello(data) == Err::<Option<Seq<u8>>, SniError>(
            SniError::UnsupportedVersion,
        ),
{
}

/// The extension walk meets no server_name entry: every entry's length field
/// is in bounds and no entry has type `0x00 0x00`.
pub open spec fn scan_skips_all(exts: Seq<u8>) -> bool
    decreases exts.len(),
{
    exts.len() > 4 ==> field_ok(exts, 2, 4) && !(exts[0] == 0 && exts[1] == 0) && scan_skips_all(
        rest_after(exts, 2, 4),
    )
}

/// Law: an extension walk that meets no server_name entry keeps whatever was
/// found before it and raises no error.
pub proof fn lemma_scan_without_server_name(exts: Seq<u8>, found: Option<Seq<u8>>)
    requires
        scan_skips_all(exts),
    ensures
        spec_scan_extensions(exts, found) == Ok::<Option<Seq<u8>>, SniError>(found),
    decreases exts.len(),
{
    if exts.len() > 4 {
        lemma_scan_without_server_name(rest_after(exts, 2, 4), found);
    }
}

/// The decode of this buffer passes every check up to the extensions block:
/// complete record of the supported version, handshake content, ClientHello
/// message, supported body version, and the whole cursor walk in bounds.
pub open spec fn hello_reaches_extensions(data: Seq<u8>) -> bool {
    &&& record_ok(data)
    &&& data[1] == 3
    &&& data[0] == 22
    &&& spec_fragment(data).len() > 0 && spec_fragment(data)[0] == 1
    &&& field_ok(spec_fragment(data), 1, 4)
    &&& spec_hello_body(data).len() > 0 && spec_hello_body(data)[0] == 3
    &&& field_ok(spec_hello_body(data), 34, 35)
    &&& field_ok(spec_after_session_id(data), 0, 2)
    &&& field_ok(spec_after_cipher_suites(data), 0, 1)
    &&& field_ok(spec_after_compression(data), 0, 1)
}

/// Law: a valid ClientHello with no server_name extension decodes
/// successfully, with no hostname.
pub proof fn lemma_hello_without_server_name(data: Seq<u8>)
    requires
        hello_reaches_extensions(data),
        scan_skips_all(spec_extensions(data)),
    ensures
        spec_parse_client_hello(data) == Ok::<Option<Seq<u8>>, SniError>(None),
{
    lemma_scan_without_server_name(spec_extensions(data), None);
}

/// This extension entry's data carries a host_name: a zero name-type byte at
/// offset 2 and an in-bounds name whose length stands at `[3, 5)`, in valid
/// UTF-8.
pub open spec fn server_name_entry_ok(ext_data: Seq<u8>) -> bool {
    &&& ext_data.len() >= 3
    &&& ext_data[2] == 0
    &&& field_ok(ext_data, 3, 5)
    &&& vstd::utf8::valid_utf8(field_of(ext_data, 3, 5))
}

/// Walking the extensions meets exactly one server_name entry, in whatever
/// position, and it carries `name`; every other entry has another type.
pub open spec fn scan_finds_exactly(exts: Seq<u8>, name: Seq<u8>) -> bool
    decreases exts.len(),
{
    if exts.len() <= 4 {
        false
    } else if !field_ok(exts, 2, 4) {
        false
    } else if exts[0] == 0 && exts[1] == 0 {
        &&& server_name_entry_ok(field_of(exts, 2, 4))
        &&& field_of(field_of(exts, 2, 4), 3, 5) == name
        &&& scan_skips_all(rest_after(exts, 2, 4))
    } else {
        scan_finds_exactly(rest_after(exts, 2, 4), name)
    }
}

/// Law: when exactly one server_name entry stands among the extensions, the
/// walk skips the unrelated entries and returns that entry's hostname,
/// whatever had been found before.
pub proof fn lemma_scan_single_server_name(exts: Seq<u8>, found: Option<Seq<u8>>, name: Seq<u8>)
    requires
        scan_finds_exactly(exts, name),
    ensures
        spec_scan_extensions(exts, found) == Ok::<Option<Seq<u8>>, SniError>(Some(name)),
    decreases exts.len(),
{
    if exts[0] == 0 && exts[1] == 0 {
        lemma_scan_without_server_name(rest_after(exts, 2, 4), Some(name));
    } else {
        lemma_scan_single_server_name(rest_after(exts, 2, 4), found, name);
    }
}

/// Law: a valid ClientHello whose extensions hold exactly one server_name
/// entry, among any other entries in any order, decodes to its hostname.
pub proof fn lemma_hello_single_server_name(data: Seq<u8>, name: Seq<u8>)
    requires
        hello_reaches_extensions(data),
        scan_finds_exactly(spec_extensions(data), name),
    ensures
        spec_parse_client_hello(data) == Ok::<Option<Seq<u8>>, SniError>(Some(name)),
{
    lemma_scan_single_server_name(spec_extensions(data), None, name);
}

} // verus!
