//! Domain names on the wire: a run of labels, each a length octet followed by
//! that many octets, closed by a zero octet.
//!
//! In memory a name is text with a dot between its labels. The octets of a
//! label are the UTF-8 octets of its text.

use crate::error::DnsError;
use crate::reader::{reads_as, Reader};
use crate::wire::{lemma_stands_at_parts, put_bytes, stands_at};
use vstd::prelude::*;
use vstd::slice::slice_subrange;
use vstd::string::StringSliceAdditionalSpecFns;
use vstd::utf8::{decode_utf8, encode_utf8, valid_utf8};

verus! {

/// The octet that parts the labels of a name in memory: a dot.
pub const SEPARATOR: u8 = 0x2e;

/// The longest label that a length octet can express.
pub const MAX_LABEL_LEN: usize = 255;

/// The longest label that the DNS allows.
pub const MAX_DNS_LABEL_LEN: usize = 63;

/// A length octet at or above this value has its two top bits set. In a full
/// DNS implementation it starts a compression pointer.
pub const POINTER_MARKER: u8 = 0xc0;

/// What the decoder does with a length octet that has its two top bits set.
/// Pointers are never followed.
#[derive(Clone, Copy, Debug, PartialEq, Eq, Structural)]
pub enum CompressionPolicy {
    /// Such an octet ends decoding with [`DnsError::CompressedName`].
    Reject,
    /// Such an octet is taken as the length of a label of 192 to 255 octets.
    Verbatim,
}

/// The number of octets of `name` before its first separator; its length if
/// it has none.
pub open spec fn first_label_len(name: Seq<u8>) -> int
    decreases name.len(),
{
    if name.len() == 0 || name[0] == SEPARATOR {
        0
    } else {
        1 + first_label_len(name.skip(1))
    }
}

/// The labels of `name`: the runs of octets between its separators, in order.
/// A name always has at least one label, and a label may be empty.
pub open spec fn labels_of(name: Seq<u8>) -> Seq<Seq<u8>>
    decreases name.len(),
{
    let k = first_label_len(name);
    if 0 <= k < name.len() {
        seq![name.take(k)] + labels_of(name.skip(k + 1))
    } else {
        seq![name]
    }
}

/// The labels joined by separators: the inverse of [`labels_of`].
pub open spec fn dotted(labels: Seq<Seq<u8>>) -> Seq<u8>
    decreases labels.len(),
{
    if labels.len() == 0 {
        Seq::empty()
    } else if labels.len() == 1 {
        labels[0]
    } else {
        labels[0] + seq![SEPARATOR] + dotted(labels.skip(1))
    }
}

/// Every label is at least `min` and at most `max` octets long.
pub open spec fn label_lengths_within(labels: Seq<Seq<u8>>, min: int, max: int) -> bool {
    forall|i: int| 0 <= i < labels.len() ==> min <= (#[trigger] labels[i]).len() <= max
}

/// One label on the wire: its length, then its octets.
pub open spec fn label_wire(label: Seq<u8>) -> Seq<u8> {
    seq![label.len() as u8] + label
}

/// A run of labels on the wire, without the closing zero octet.
pub open spec fn labels_wire(labels: Seq<Seq<u8>>) -> Seq<u8>
    decreases labels.len(),
{
    if labels.len() == 0 {
        Seq::empty()
    } else {
        label_wire(labels[0]) + labels_wire(labels.skip(1))
    }
}

/// The labels of a name given as text: the labels of its UTF-8 octets.
pub open spec fn name_labels(name: Seq<char>) -> Seq<Seq<u8>> {
    labels_of(encode_utf8(name))
}

/// A name on the wire: its labels, then a zero octet.
pub open spec fn name_wire(name: Seq<char>) -> Seq<u8> {
    labels_wire(name_labels(name)) + seq![0u8]
}

/// A name can be put on the wire when none of its labels is longer than a
/// length octet can express.
pub open spec fn encodable(name: Seq<char>) -> bool {
    label_lengths_within(name_labels(name), 0, MAX_LABEL_LEN as int)
}

/// A name is a valid domain name when each of its labels has 1 to 63 octets.
pub open spec fn valid_name(name: Seq<char>) -> bool {
    label_lengths_within(name_labels(name), 1, MAX_DNS_LABEL_LEN as int)
}

/// The longest label that the decoder accepts under `policy`.
pub open spec fn label_limit(policy: CompressionPolicy) -> int {
    match policy {
        CompressionPolicy::Reject => POINTER_MARKER - 1,
        CompressionPolicy::Verbatim => MAX_LABEL_LEN as int,
    }
}

/// A name is read back from its wire form when none of its labels is empty
/// or longer than the decoder accepts under `policy`.
pub open spec fn reads_back(name: Seq<char>, policy: CompressionPolicy) -> bool {
    label_lengths_within(name_labels(name), 1, label_limit(policy))
}

/// `labels` put in front of the labels of a parse that went on after them.
pub open spec fn with_labels_before(
    labels: Seq<Seq<u8>>,
    later: Result<(Seq<Seq<u8>>, int), DnsError>,
) -> Result<(Seq<Seq<u8>>, int), DnsError> {
    match later {
        Ok((rest, next)) => Ok((labels + rest, next)),
        Err(e) => Err(e),
    }
}

/// The labels that stand at `pos` in `buf`, with the position after their
/// closing zero octet.
///
/// It is `TruncatedMessage` when `buf` ends before the zero octet or within a
/// label, and `CompressedName` when the policy is to reject and a length
/// octet with its two top bits set comes first.
pub open spec fn parsed_labels(
    buf: Seq<u8>,
    pos: int,
    policy: CompressionPolicy,
) -> Result<(Seq<Seq<u8>>, int), DnsError>
    decreases buf.len() - pos,
{
    if pos < 0 || pos >= buf.len() {
        Err(DnsError::TruncatedMessage)
    } else {
        let len = buf[pos] as int;
        if len == 0 {
            Ok((Seq::empty(), pos + 1))
        } else if policy == CompressionPolicy::Reject && len >= POINTER_MARKER {
            Err(DnsError::CompressedName)
        } else if pos + 1 + len > buf.len() {
            Err(DnsError::TruncatedMessage)
        } else {
            with_labels_before(
                seq![buf.subrange(pos + 1, pos + 1 + len)],
                parsed_labels(buf, pos + 1 + len, policy),
            )
        }
    }
}

/// The name that stands at `pos` in `buf`, as text, with the position after
/// it. The octets of its labels, joined by dots, must be valid UTF-8.
pub open spec fn decoded_name(
    buf: Seq<u8>,
    pos: int,
    policy: CompressionPolicy,
) -> Result<(Seq<char>, int), DnsError> {
    match parsed_labels(buf, pos, policy) {
        Ok((labels, next)) => if valid_utf8(dotted(labels)) {
            Ok((decode_utf8(dotted(labels)), next))
        } else {
            Err(DnsError::MalformedName)
        },
        Err(e) => Err(e),
    }
}

/// Writes `domain` to `out` in wire form: each of its labels as a length
/// octet followed by the label's octets, then a zero octet.
///
/// A name with a label of more than 255 octets cannot be written; `out` is
/// then left as it was.
pub fn write_qname(out: &mut Vec<u8>, domain: &str) -> (res: Result<(), DnsError>)
    ensures
        encodable(domain@) ==> res is Ok && final(out)@ == old(out)@ + name_wire(domain@),
        !encodable(domain@) ==> res == Err::<(), DnsError>(DnsError::Encoding) && final(out)@
            == old(out)@,
{
    let name: &[u8] = domain.as_bytes();
    let total: usize = name.len();
    let mark: usize = out.len();
    let mut start: usize = 0;
    assert(name@.skip(0) =~= name@);
    loop
        invariant_except_break
            start <= total,
            old(out)@ + labels_wire(labels_of(name@)) == out@ + labels_wire(
                labels_of(name@.skip(start as int)),
            ),
            fits(name@) <==> fits(name@.skip(start as int)),
        invariant
            name@ == domain.spec_bytes(),
            total == name@.len(),
            mark == old(out)@.len(),
            out@.len() >= mark,
            out@.take(mark as int) == old(out)@,
        ensures
            old(out)@ + labels_wire(labels_of(name@)) == out@,
            fits(name@),
        decreases total - start,
    {
        let mut end: usize = start;
        while end < total && name[end] != SEPARATOR
            invariant
                start <= end <= total,
                total == name@.len(),
                forall|i: int| start <= i < end ==> name@[i] != SEPARATOR,
            decreases total - end,
        {
            end = end + 1;
        }
        let len: usize = end - start;
        let ghost tail = name@.skip(start as int);
        let ghost label = name@.subrange(start as int, end as int);
        proof {
            lemma_first_label_len(tail, len as int);
            assert(tail.take(len as int) =~= label);
            if end < total {
                assert(tail.skip(len + 1) =~= name@.skip(end + 1));
                assert(labels_of(tail) == seq![label] + labels_of(name@.skip(end + 1)));
                lemma_labels_wire_first(label, labels_of(name@.skip(end + 1)));
                lemma_lengths_within_first(
                    label,
                    labels_of(name@.skip(end + 1)),
                    0,
                    MAX_LABEL_LEN as int,
                );
            } else {
                assert(tail =~= label);
                assert(labels_of(tail) == seq![label]);
                lemma_labels_wire_first(label, Seq::empty());
                lemma_lengths_within_first(label, Seq::empty(), 0, MAX_LABEL_LEN as int);
                assert(seq![label] + Seq::<Seq<u8>>::empty() =~= seq![label]);
            }
        }
        if len > MAX_LABEL_LEN {
            out.truncate(mark);
            assert(out@ =~= old(out)@);
            return Err(DnsError::Encoding);
        }
        let ghost before = out@;
        out.push(len as u8);
        put_bytes(out, slice_subrange(name, start, end));
        assert(out@ =~= before + label_wire(label));
        assert(out@.take(mark as int) =~= before.take(mark as int));
        if end == total {
            assert(old(out)@ + labels_wire(labels_of(name@)) =~= out@) by {
                assert(labels_wire(Seq::<Seq<u8>>::empty()) =~= Seq::<u8>::empty());
            }
            break ;
        }
        start = end + 1;
        assert(old(out)@ + labels_wire(labels_of(name@)) =~= out@ + labels_wire(
            labels_of(name@.skip(start as int)),
        ));
    }
    out.push(0);
    assert(out@ =~= old(out)@ + name_wire(domain@));
    Ok(())
}

/// Converts octets to text with `String::from_utf8`, which succeeds exactly
/// on valid UTF-8 and then yields the text whose UTF-8 octets are `bytes`.
#[verifier::external_body]
fn string_from_utf8(bytes: Vec<u8>) -> (text: Option<String>)
    ensures
        text is Some <==> valid_utf8(bytes@),
        text matches Some(s) ==> encode_utf8(s@) == bytes@,
{
    match String::from_utf8(bytes) {
        Ok(s) => Some(s),
        Err(_) => None,
    }
}

/// Reads the name that stands at the reader's position: labels up to a zero
/// octet, joined by dots.
///
/// On failure nothing is consumed. Compression pointers are not followed:
/// `policy` says whether a length octet that marks one is refused or taken
/// as a plain length.
pub fn read_qname<'a>(
    r: &mut Reader<'a>,
    policy: CompressionPolicy,
) -> (res: Result<String, DnsError>)
    ensures
        reads_as(old(r)@, final(r)@, res, decoded_name(old(r)@.bytes, old(r)@.pos as int, policy)),
{
    let mut cur: Reader<'a> = *r;
    let start: usize = cur.position();
    let mut name: Vec<u8> = Vec::new();
    let ghost bytes = r@.bytes;
    let ghost mut labels: Seq<Seq<u8>> = Seq::empty();
    assert(labels + parsed_labels(bytes, start as int, policy)->Ok_0.0 =~= parsed_labels(
        bytes,
        start as int,
        policy,
    )->Ok_0.0);
    loop
        invariant_except_break
            parsed_labels(bytes, start as int, policy) == with_labels_before(
                labels,
                parsed_labels(bytes, cur@.pos as int, policy),
            ),
        invariant
            *r == *old(r),
            bytes == old(r)@.bytes,
            start == old(r)@.pos,
            cur@.bytes == bytes,
            cur@.valid(),
            name@ == dotted(labels),
            label_lengths_within(labels, 1, MAX_LABEL_LEN as int),
        ensures
            parsed_labels(bytes, start as int, policy) == Ok::<(Seq<Seq<u8>>, int), DnsError>(
                (labels, cur@.pos as int),
            ),
        decreases bytes.len() - cur@.pos,
    {
        let ghost here = cur@.pos as int;
        let len: u8 = cur.read_u8()?;
        if len == 0 {
            assert(labels + Seq::<Seq<u8>>::empty() =~= labels);
            break ;
        }
        match policy {
            CompressionPolicy::Reject => {
                if len >= POINTER_MARKER {
                    return Err(DnsError::CompressedName);
                }
            },
            CompressionPolicy::Verbatim => {},
        }
        let label: &[u8] = cur.read_exact(len as usize)?;
        proof {
            let later = parsed_labels(bytes, cur@.pos as int, policy);
            assert(parsed_labels(bytes, here, policy) == with_labels_before(seq![label@], later));
            if later is Ok {
                assert(labels + (seq![label@] + later->Ok_0.0) =~= labels.push(label@)
                    + later->Ok_0.0);
            }
            lemma_dotted_push(labels, label@);
            if labels.len() > 0 {
                lemma_dotted_nonempty(labels, MAX_LABEL_LEN as int);
            }
        }
        if name.len() > 0 {
            name.push(SEPARATOR);
        }
        put_bytes(&mut name, label);
        proof {
            labels = labels.push(label@);
        }
    }
    match string_from_utf8(name) {
        Some(text) => {
            proof {
                vstd::utf8::encode_utf8_decode_utf8(text@);
            }
            *r = cur;
            Ok(text)
        },
        None => Err(DnsError::MalformedName),
    }
}

/// Reading a name back from its wire form gives the name: for every valid
/// domain name the decoder, pointed at the name's wire form, returns the name
/// and stops right after it, whatever the policy.
pub proof fn lemma_name_round_trip(
    name: Seq<char>,
    buf: Seq<u8>,
    pos: int,
    policy: CompressionPolicy,
)
    requires
        valid_name(name),
        stands_at(buf, pos, name_wire(name)),
    ensures
        decoded_name(buf, pos, policy) == Ok::<(Seq<char>, int), DnsError>(
            (name, pos + name_wire(name).len()),
        ),
{
    lemma_name_reads_back(name, buf, pos, policy);
}

/// Reading a name back from its wire form gives the name, for every name
/// without an empty label and without a label longer than the decoder
/// accepts under the policy.
pub proof fn lemma_name_reads_back(
    name: Seq<char>,
    buf: Seq<u8>,
    pos: int,
    policy: CompressionPolicy,
)
    requires
        reads_back(name, policy),
        stands_at(buf, pos, name_wire(name)),
    ensures
        decoded_name(buf, pos, policy) == Ok::<(Seq<char>, int), DnsError>(
            (name, pos + name_wire(name).len()),
        ),
{
    let octets = encode_utf8(name);
    lemma_labels_round_trip(buf, pos, labels_of(octets), policy);
    lemma_dotted_labels_of(octets);
    vstd::utf8::encode_utf8_valid_utf8(name);
    vstd::utf8::encode_utf8_decode_utf8(name);
}

/// A name that is read back from its wire form can be put on the wire.
pub proof fn lemma_reads_back_is_encodable(name: Seq<char>, policy: CompressionPolicy)
    requires
        reads_back(name, policy),
    ensures
        encodable(name),
{
}

/// A valid domain name can be put on the wire and is read back from there,
/// whatever the policy.
pub proof fn lemma_valid_name(name: Seq<char>, policy: CompressionPolicy)
    requires
        valid_name(name),
    ensures
        encodable(name),
        reads_back(name, policy),
{
}

/// Decoding undoes encoding, label by label: where the wire form of a run of
/// labels and its closing zero octet stand in a buffer, the decoder reads
/// those labels and stops after the zero octet, provided that no label is
/// empty or longer than the policy reads back.
pub proof fn lemma_labels_round_trip(
    buf: Seq<u8>,
    pos: int,
    labels: Seq<Seq<u8>>,
    policy: CompressionPolicy,
)
    requires
        label_lengths_within(labels, 1, label_limit(policy)),
        stands_at(buf, pos, labels_wire(labels) + seq![0u8]),
    ensures
        parsed_labels(buf, pos, policy) == Ok::<(Seq<Seq<u8>>, int), DnsError>(
            (labels, pos + labels_wire(labels).len() + 1),
        ),
    decreases labels.len(),
{
    let whole = labels_wire(labels) + seq![0u8];
    let window = buf.subrange(pos, pos + whole.len());
    assert(window[0] == buf[pos]);
    if labels.len() == 0 {
        assert(whole[0] == 0u8);
        assert(labels =~= Seq::<Seq<u8>>::empty());
    } else {
        let first = labels[0];
        let rest = labels.skip(1);
        let len = first.len() as int;
        assert(1 <= len <= label_limit(policy));
        assert(whole =~= label_wire(first) + (labels_wire(rest) + seq![0u8]));
        lemma_stands_at_parts(buf, pos, label_wire(first), labels_wire(rest) + seq![0u8]);
        lemma_stands_at_parts(buf, pos, seq![len as u8], first);
        assert forall|i: int| 0 <= i < rest.len() implies 1 <= (#[trigger] rest[i]).len()
            <= label_limit(policy) by {
            assert(rest[i] == labels[i + 1]);
        }
        lemma_labels_round_trip(buf, pos + 1 + len, rest, policy);
        assert(buf.subrange(pos, pos + 1)[0] == buf[pos]);
        assert(buf[pos] == len as u8);
        assert(buf.subrange(pos + 1, pos + 1 + len) == first);
        assert(seq![first] + rest =~= labels);
        assert(labels_wire(labels).len() == 1 + len + labels_wire(rest).len());
        assert(parsed_labels(buf, pos, policy) == with_labels_before(
            seq![first],
            parsed_labels(buf, pos + 1 + len, policy),
        ));
    }
}

/// Splitting a name into its labels and joining them again gives the name.
pub proof fn lemma_dotted_labels_of(name: Seq<u8>)
    ensures
        dotted(labels_of(name)) == name,
    decreases name.len(),
{
    let k = first_label_len(name);
    if 0 <= k < name.len() {
        let tail = name.skip(k + 1);
        let rest = labels_of(tail);
        let all = seq![name.take(k)] + rest;
        lemma_dotted_labels_of(tail);
        lemma_first_label_is_separated(name);
        assert(all[0] == name.take(k));
        assert(all.skip(1) =~= rest);
        assert(dotted(all) =~= name);
    }
}

/// A name that the decoder returns can be encoded again, and the decoder
/// stops behind where it began, within the buffer.
pub proof fn lemma_decoded_name_is_encodable(buf: Seq<u8>, pos: int, policy: CompressionPolicy)
    ensures
        decoded_name(buf, pos, policy) matches Ok((name, next)) ==> encodable(name) && pos < next
            <= buf.len(),
{
    if let Ok((labels, next)) = parsed_labels(buf, pos, policy) {
        if valid_utf8(dotted(labels)) {
            lemma_parsed_labels_bounds(buf, pos, policy);
            lemma_dotted_labels_fit(labels, MAX_LABEL_LEN as int);
            vstd::utf8::decode_utf8_encode_utf8(dotted(labels));
        }
    }
}

/// No label of `octets` is longer than a length octet can express.
spec fn fits(octets: Seq<u8>) -> bool {
    label_lengths_within(labels_of(octets), 0, MAX_LABEL_LEN as int)
}

/// The first label ends where the first separator stands.
proof fn lemma_first_label_len(name: Seq<u8>, k: int)
    requires
        0 <= k <= name.len(),
        forall|i: int| 0 <= i < k ==> name[i] != SEPARATOR,
        k == name.len() || name[k] == SEPARATOR,
    ensures
        first_label_len(name) == k,
    decreases k,
{
    if k > 0 {
        lemma_first_label_len(name.skip(1), k - 1);
    }
}

/// The first label lies within the name.
proof fn lemma_first_label_len_bounds(name: Seq<u8>)
    ensures
        0 <= first_label_len(name) <= name.len(),
    decreases name.len(),
{
    if name.len() > 0 && name[0] != SEPARATOR {
        lemma_first_label_len_bounds(name.skip(1));
    }
}

/// Where the first label ends before the name does, a separator follows it.
proof fn lemma_first_label_is_separated(name: Seq<u8>)
    ensures
        0 <= first_label_len(name) < name.len() ==> name[first_label_len(name)] == SEPARATOR,
    decreases name.len(),
{
    if name.len() > 0 && name[0] != SEPARATOR {
        let tail = name.skip(1);
        lemma_first_label_is_separated(tail);
        lemma_first_label_len_bounds(tail);
        let k = first_label_len(tail);
        if k < tail.len() {
            assert(tail[k] == name[k + 1]);
        }
    }
}

/// The first label of two names joined by a separator is the first label of
/// the first of them.
proof fn lemma_first_label_len_joined(first: Seq<u8>, second: Seq<u8>)
    ensures
        first_label_len(first + seq![SEPARATOR] + second) == first_label_len(first),
    decreases first.len(),
{
    let whole = first + seq![SEPARATOR] + second;
    if first.len() == 0 {
        assert(whole[0] == SEPARATOR);
    } else {
        assert(whole[0] == first[0]);
        if first[0] != SEPARATOR {
            assert(whole.skip(1) =~= first.skip(1) + seq![SEPARATOR] + second);
            lemma_first_label_len_joined(first.skip(1), second);
        }
    }
}

/// The labels of two names joined by a separator are the labels of the
/// first followed by the labels of the second.
proof fn lemma_labels_of_joined(first: Seq<u8>, second: Seq<u8>)
    ensures
        labels_of(first + seq![SEPARATOR] + second) == labels_of(first) + labels_of(second),
    decreases first.len(),
{
    let whole = first + seq![SEPARATOR] + second;
    let k = first_label_len(first);
    lemma_first_label_len_joined(first, second);
    lemma_first_label_len_bounds(first);
    assert(first_label_len(whole) == k);
    assert(whole.take(k) =~= first.take(k));
    if k < first.len() {
        let tail = first.skip(k + 1);
        assert(whole.skip(k + 1) =~= tail + seq![SEPARATOR] + second);
        lemma_labels_of_joined(tail, second);
        assert(labels_of(whole) == seq![first.take(k)] + labels_of(whole.skip(k + 1)));
        assert(labels_of(first) == seq![first.take(k)] + labels_of(tail));
        assert(seq![first.take(k)] + (labels_of(tail) + labels_of(second)) =~= (seq![
            first.take(k),
        ] + labels_of(tail)) + labels_of(second));
    } else {
        assert(first.take(k) =~= first);
        assert(whole.skip(k + 1) =~= second);
        assert(labels_of(whole) == seq![first] + labels_of(second));
        assert(labels_of(first) == seq![first]);
    }
}

/// No label of a name is longer than the name.
proof fn lemma_labels_within_name(name: Seq<u8>, max: int)
    requires
        name.len() <= max,
    ensures
        label_lengths_within(labels_of(name), 0, max),
    decreases name.len(),
{
    let k = first_label_len(name);
    lemma_first_label_len_bounds(name);
    if 0 <= k < name.len() {
        let tail = name.skip(k + 1);
        lemma_labels_within_name(tail, max);
        lemma_lengths_within_first(name.take(k), labels_of(tail), 0, max);
    } else {
        assert(labels_of(name)[0] == name);
    }
}

/// The wire form of a run of labels is that of the first label followed by
/// that of the rest.
proof fn lemma_labels_wire_first(first: Seq<u8>, rest: Seq<Seq<u8>>)
    ensures
        labels_wire(seq![first] + rest) == label_wire(first) + labels_wire(rest),
{
    let all = seq![first] + rest;
    assert(all[0] == first);
    assert(all.skip(1) =~= rest);
}

/// A run of labels keeps within bounds exactly when its first label and the
/// rest do.
proof fn lemma_lengths_within_first(first: Seq<u8>, rest: Seq<Seq<u8>>, min: int, max: int)
    ensures
        label_lengths_within(seq![first] + rest, min, max) <==> (min <= first.len() <= max
            && label_lengths_within(rest, min, max)),
{
    let all = seq![first] + rest;
    assert(all[0] == first);
    if label_lengths_within(all, min, max) {
        assert forall|i: int| 0 <= i < rest.len() implies min <= (#[trigger] rest[i]).len()
            <= max by {
            assert(all[i + 1] == rest[i]);
        }
    }
    if min <= first.len() <= max && label_lengths_within(rest, min, max) {
        assert forall|i: int| 0 <= i < all.len() implies min <= (#[trigger] all[i]).len()
            <= max by {
            if i > 0 {
                assert(all[i] == rest[i - 1]);
            }
        }
    }
}

/// Two runs of labels that keep within bounds still do so when joined.
proof fn lemma_lengths_within_joined(
    first: Seq<Seq<u8>>,
    second: Seq<Seq<u8>>,
    min: int,
    max: int,
)
    requires
        label_lengths_within(first, min, max),
        label_lengths_within(second, min, max),
    ensures
        label_lengths_within(first + second, min, max),
{
    let all = first + second;
    assert forall|i: int| 0 <= i < all.len() implies min <= (#[trigger] all[i]).len() <= max by {
        if i < first.len() {
            assert(all[i] == first[i]);
        } else {
            assert(all[i] == second[i - first.len()]);
        }
    }
}

/// Joining one more label to a run of labels adds a separator and the label,
/// or just the label if the run was empty.
proof fn lemma_dotted_push(labels: Seq<Seq<u8>>, label: Seq<u8>)
    ensures
        dotted(labels.push(label)) == if labels.len() == 0 {
            label
        } else {
            dotted(labels) + seq![SEPARATOR] + label
        },
    decreases labels.len(),
{
    let all = labels.push(label);
    if labels.len() == 0 {
        assert(all[0] == label);
    } else {
        let rest = labels.skip(1);
        assert(all.skip(1) =~= rest.push(label));
        assert(all[0] == labels[0]);
        lemma_dotted_push(rest, label);
        if rest.len() == 0 {
            assert(dotted(labels) == labels[0]);
            assert(dotted(all) =~= dotted(labels) + seq![SEPARATOR] + label);
        } else {
            assert(dotted(all) =~= dotted(labels) + seq![SEPARATOR] + label);
        }
    }
}

/// A run of labels of which none is empty joins to a name that is not empty.
proof fn lemma_dotted_nonempty(labels: Seq<Seq<u8>>, max: int)
    requires
        labels.len() > 0,
        label_lengths_within(labels, 1, max),
    ensures
        dotted(labels).len() > 0,
{
    assert(labels[0].len() >= 1);
}

/// Joining labels by separators and splitting the name again gives labels
/// that are no longer than the longest of those joined. They need not be the
/// same labels: a label that holds a separator comes back in pieces.
proof fn lemma_dotted_labels_fit(labels: Seq<Seq<u8>>, max: int)
    requires
        0 <= max,
        label_lengths_within(labels, 0, max),
    ensures
        label_lengths_within(labels_of(dotted(labels)), 0, max),
    decreases labels.len(),
{
    if labels.len() == 0 {
        assert(labels_of(dotted(labels))[0].len() == 0);
    } else if labels.len() == 1 {
        assert(labels[0].len() <= max);
        lemma_labels_within_name(labels[0], max);
    } else {
        let rest = labels.skip(1);
        assert(labels[0].len() <= max);
        assert forall|i: int| 0 <= i < rest.len() implies 0 <= (#[trigger] rest[i]).len()
            <= max by {
            assert(rest[i] == labels[i + 1]);
        }
        lemma_labels_within_name(labels[0], max);
        lemma_dotted_labels_fit(rest, max);
        lemma_labels_of_joined(labels[0], dotted(rest));
        lemma_lengths_within_joined(labels_of(labels[0]), labels_of(dotted(rest)), 0, max);
    }
}

/// The labels that the decoder reads are not empty and no longer than the
/// policy accepts, and the decoder stops behind where it began, within the
/// buffer.
proof fn lemma_parsed_labels_bounds(buf: Seq<u8>, pos: int, policy: CompressionPolicy)
    ensures
        parsed_labels(buf, pos, policy) matches Ok((labels, next)) ==> label_lengths_within(
            labels,
            1,
            label_limit(policy),
        ) && pos < next <= buf.len(),
    decreases buf.len() - pos,
{
    if 0 <= pos < buf.len() {
        let len = buf[pos] as int;
        if len != 0 && !(policy == CompressionPolicy::Reject && len >= POINTER_MARKER) && pos + 1
            + len <= buf.len() {
            lemma_parsed_labels_bounds(buf, pos + 1 + len, policy);
            let later = parsed_labels(buf, pos + 1 + len, policy);
            if later is Ok {
                lemma_lengths_within_first(
                    buf.subrange(pos + 1, pos + 1 + len),
                    later->Ok_0.0,
                    1,
                    label_limit(policy),
                );
            }
        }
    }
}

} // verus!
