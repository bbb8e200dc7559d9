use vstd::prelude::*;
use vstd::utf8::encode_utf8;

use crate::text::{
    byte_pieces, char_pieces, chars_of, parse_unsigned, parse_unsigned_chars, split_bytes,
    split_chars, split_on, str_eq,
};

verus! {

// ---------------------------------------------------------------------------
// The model of an answer record in DNS wire format
// ---------------------------------------------------------------------------

/// The numeric code that a record type or class word stands for on the
/// wire (a word that is not listed counts as 1).
pub open spec fn type_class_code(word: Seq<char>) -> u16 {
    if word == seq!['A'] {
        1
    } else if word == seq!['I', 'N'] {
        1
    } else if word == seq!['N', 'S'] {
        2
    } else if word == seq!['C', 'H'] {
        3
    } else if word == seq!['H', 'S'] {
        4
    } else if word == seq!['C', 'N', 'A', 'M', 'E'] {
        5
    } else if word == seq!['M', 'X'] {
        15
    } else if word == seq!['T', 'X', 'T'] {
        16
    } else {
        1
    }
}

/// A 16-bit number, most significant byte first.
pub open spec fn be16(v: u16) -> Seq<u8> {
    seq![(v / 256) as u8, (v % 256) as u8]
}

/// A 32-bit number, most significant byte first.
pub open spec fn be32(v: u32) -> Seq<u8> {
    seq![(v / 16777216) as u8, ((v / 65536) % 256) as u8, ((v / 256) % 256) as u8, (v % 256) as u8]
}

/// Labels as a DNS name: each label prefixed by its length (kept to its low
/// eight bits); an empty label ends the name with a zero byte, and nothing
/// after it is written.
pub open spec fn encode_labels(labels: Seq<Seq<u8>>) -> Seq<u8>
    decreases labels.len(),
{
    if labels.len() == 0 {
        seq![]
    } else if labels[0].len() == 0 {
        seq![0u8]
    } else {
        seq![labels[0].len() as u8] + labels[0] + encode_labels(labels.drop_first())
    }
}

/// The bytes of a dotted name, split at each `.`, as a DNS name.
pub open spec fn encode_name(name: Seq<u8>) -> Seq<u8> {
    encode_labels(split_on(name, 46u8))
}

/// A dotted-quad part read as an octet, or 0 where it is no octet.
pub open spec fn octet_or_zero(part: Seq<char>) -> u8 {
    match parse_unsigned(part, 255) {
        Some(v) => v as u8,
        None => 0,
    }
}

pub open spec fn is_cname_or_ns(typer: Seq<char>) -> bool {
    typer == seq!['C', 'N', 'A', 'M', 'E'] || typer == seq!['N', 'S']
}

/// The length and data part of a record, by its type.
pub open spec fn record_data(typer: Seq<char>, data: Seq<char>, priority: u16) -> Seq<u8> {
    let bytes = encode_utf8(data);
    if typer == seq!['A'] {
        be16(4) + split_on(data, '.').map_values(|p: Seq<char>| octet_or_zero(p))
    } else if is_cname_or_ns(typer) {
        be16((1 + (bytes.len() as u16)) as u16) + encode_name(bytes)
    } else if typer == seq!['M', 'X'] {
        be16((3 + (bytes.len() as u16)) as u16) + be16(priority) + encode_name(bytes)
    } else if typer == seq!['T', 'X', 'T'] {
        be16((1 + (bytes.len() as u16)) as u16) + seq![bytes.len() as u8] + bytes
    } else {
        seq![]
    }
}

/// Whether the length field of a record's data fits its 16 bits, that is,
/// whether the sum that computes it does not overflow.
pub open spec fn record_data_fits(typer: Seq<char>, data: Seq<char>) -> bool {
    let n = (encode_utf8(data).len() as u16) as int;
    if is_cname_or_ns(typer) || typer == seq!['T', 'X', 'T'] {
        n + 1 <= u16::MAX
    } else if typer == seq!['M', 'X'] {
        n + 3 <= u16::MAX
    } else {
        true
    }
}

/// A whole answer record: owner name, type, class, time to live, data.
pub open spec fn answer_record(
    name: Seq<char>,
    ttl: u32,
    class: Seq<char>,
    typer: Seq<char>,
    data: Seq<char>,
    priority: u16,
) -> Seq<u8> {
    encode_name(encode_utf8(name)) + be16(type_class_code(typer)) + be16(type_class_code(class))
        + be32(ttl) + record_data(typer, data, priority)
}

// ---------------------------------------------------------------------------
// Writing
// ---------------------------------------------------------------------------

fn push_be16(buffer: &mut Vec<u8>, v: u16)
    ensures
        final(buffer)@ == old(buffer)@ + be16(v),
{
    buffer.push((v / 256) as u8);
    buffer.push((v % 256) as u8);
    assert(final(buffer)@ =~= old(buffer)@ + be16(v));
}

fn push_be32(buffer: &mut Vec<u8>, v: u32)
    ensures
        final(buffer)@ == old(buffer)@ + be32(v),
{
    buffer.push((v / 16777216) as u8);
    buffer.push(((v / 65536) % 256) as u8);
    buffer.push(((v / 256) % 256) as u8);
    buffer.push((v % 256) as u8);
    assert(final(buffer)@ =~= old(buffer)@ + be32(v));
}

fn push_all(buffer: &mut Vec<u8>, bytes: &[u8])
    ensures
        final(buffer)@ == old(buffer)@ + bytes@,
{
    let n = bytes.len();
    let mut i: usize = 0;
    while i < n
        invariant
            n == bytes@.len(),
            i <= n,
            buffer@ == old(buffer)@ + bytes@.take(i as int),
        decreases n - i,
    {
        buffer.push(bytes[i]);
        assert(bytes@.take(i + 1) =~= bytes@.take(i as int).push(bytes@[i as int]));
        i = i + 1;
    }
    assert(bytes@.take(n as int) =~= bytes@);
}

/// The numeric code of a record type or class word.
pub fn map_type_class(word: &str) -> (r: u16)
    ensures
        r == type_class_code(word@),
{
    proof {
        reveal_strlit("A");
        reveal_strlit("IN");
        reveal_strlit("NS");
        reveal_strlit("CH");
        reveal_strlit("HS");
        reveal_strlit("CNAME");
        reveal_strlit("MX");
        reveal_strlit("TXT");
        assert("A"@ =~= seq!['A']);
        assert("IN"@ =~= seq!['I', 'N']);
        assert("NS"@ =~= seq!['N', 'S']);
        assert("CH"@ =~= seq!['C', 'H']);
        assert("HS"@ =~= seq!['H', 'S']);
        assert("CNAME"@ =~= seq!['C', 'N', 'A', 'M', 'E']);
        assert("MX"@ =~= seq!['M', 'X']);
        assert("TXT"@ =~= seq!['T', 'X', 'T']);
    }
    if str_eq(word, "A") {
        1
    } else if str_eq(word, "IN") {
        1
    } else if str_eq(word, "NS") {
        2
    } else if str_eq(word, "CH") {
        3
    } else if str_eq(word, "HS") {
        4
    } else if str_eq(word, "CNAME") {
        5
    } else if str_eq(word, "MX") {
        15
    } else if str_eq(word, "TXT") {
        16
    } else {
        1
    }
}

/// A dotted name as a DNS name: every label after its length, and a zero
/// byte where the name ends with a dot.
pub fn encode_domain_name(domain: &str) -> (r: Vec<u8>)
    ensures
        r@ == encode_name(encode_utf8(domain@)),
{
    let mut buffer: Vec<u8> = Vec::new();
    let parts = split_bytes(domain.as_bytes(), 46u8);
    let ghost labels = byte_pieces(parts@);
    let n = parts.len();
    let mut i: usize = 0;
    assert(labels.skip(0) =~= labels);
    while i < n
        invariant
            n == parts@.len(),
            labels == byte_pieces(parts@),
            labels == split_on(encode_utf8(domain@), 46u8),
            i <= n,
            buffer@ + encode_labels(labels.skip(i as int)) == encode_labels(labels),
        decreases n - i,
    {
        let part = &parts[i];
        assert(labels.skip(i as int)[0] == part@);
        if part.len() == 0 {
            buffer.push(0u8);
            return buffer;
        }
        assert(labels.skip(i as int).drop_first() =~= labels.skip(i + 1));
        let ghost before = buffer@;
        buffer.push(part.len() as u8);
        push_all(&mut buffer, part.as_slice());
        assert(buffer@ =~= before + seq![part@.len() as u8] + part@);
        i = i + 1;
    }
    assert(labels.skip(n as int) =~= Seq::<Seq<u8>>::empty());
    assert(buffer@ =~= encode_labels(labels));
    buffer
}

/// The octets of a dotted quad, one per part; a part that is no octet
/// gives 0.
fn dotted_octets(data: &str) -> (r: Vec<u8>)
    ensures
        r@ == split_on(data@, '.').map_values(|p: Seq<char>| octet_or_zero(p)),
{
    let chars = chars_of(data);
    let parts = split_chars(chars.as_slice(), '.');
    let ghost pieces = char_pieces(parts@);
    let mut out: Vec<u8> = Vec::new();
    let n = parts.len();
    let mut i: usize = 0;
    while i < n
        invariant
            n == parts@.len(),
            pieces == char_pieces(parts@),
            pieces == split_on(data@, '.'),
            i <= n,
            out@ == pieces.take(i as int).map_values(|p: Seq<char>| octet_or_zero(p)),
        decreases n - i,
    {
        let octet = match parse_unsigned_chars(parts[i].as_slice(), 255) {
            Some(v) => v as u8,
            None => 0u8,
        };
        assert(pieces[i as int] == parts@[i as int]@);
        out.push(octet);
        assert(pieces.take(i + 1) =~= pieces.take(i as int).push(pieces[i as int]));
        assert(out@ =~= pieces.take(i + 1).map_values(|p: Seq<char>| octet_or_zero(p)));
        i = i + 1;
    }
    assert(pieces.take(n as int) =~= pieces);
    out
}

/// Whether the length field of a record's data fits its 16 bits.
pub fn data_fits(typer: &str, data: &str) -> (r: bool)
    ensures
        r == record_data_fits(typer@, data@),
{
    proof {
        reveal_strlit("NS");
        reveal_strlit("CNAME");
        reveal_strlit("MX");
        reveal_strlit("TXT");
        assert("NS"@ =~= seq!['N', 'S']);
        assert("CNAME"@ =~= seq!['C', 'N', 'A', 'M', 'E']);
        assert("MX"@ =~= seq!['M', 'X']);
        assert("TXT"@ =~= seq!['T', 'X', 'T']);
    }
    let n = data.as_bytes().len() as u16;
    if str_eq(typer, "CNAME") || str_eq(typer, "NS") || str_eq(typer, "TXT") {
        n < 65535
    } else if str_eq(typer, "MX") {
        n < 65533
    } else {
        true
    }
}

/// An answer record in DNS wire format.
pub fn convert_to_vec(
    name: &str,
    ttl: u32,
    class: &str,
    typer: &str,
    data: &str,
    priority: u16,
) -> (r: Vec<u8>)
    requires
        record_data_fits(typer@, data@),
    ensures
        r@ == answer_record(name@, ttl, class@, typer@, data@, priority),
{
    proof {
        reveal_strlit("A");
        reveal_strlit("NS");
        reveal_strlit("CNAME");
        reveal_strlit("MX");
        reveal_strlit("TXT");
        assert("A"@ =~= seq!['A']);
        assert("NS"@ =~= seq!['N', 'S']);
        assert("CNAME"@ =~= seq!['C', 'N', 'A', 'M', 'E']);
        assert("MX"@ =~= seq!['M', 'X']);
        assert("TXT"@ =~= seq!['T', 'X', 'T']);
    }
    let mut buffer: Vec<u8> = Vec::new();
    let encoded = encode_domain_name(name);
    push_all(&mut buffer, encoded.as_slice());
    push_be16(&mut buffer, map_type_class(typer));
    push_be16(&mut buffer, map_type_class(class));
    push_be32(&mut buffer, ttl);
    let ghost head = buffer@;
    let data_len = data.as_bytes().len();
    if str_eq(typer, "A") {
        push_be16(&mut buffer, 4);
        let octets = dotted_octets(data);
        push_all(&mut buffer, octets.as_slice());
    } else if str_eq(typer, "CNAME") || str_eq(typer, "NS") {
        let long: u16 = 1 + data_len as u16;
        push_be16(&mut buffer, long);
        let encoded_data = encode_domain_name(data);
        push_all(&mut buffer, encoded_data.as_slice());
    } else if str_eq(typer, "MX") {
        let long: u16 = 3 + data_len as u16;
        push_be16(&mut buffer, long);
        push_be16(&mut buffer, priority);
        let encoded_data = encode_domain_name(data);
        push_all(&mut buffer, encoded_data.as_slice());
    } else if str_eq(typer, "TXT") {
        let long: u16 = 1 + data_len as u16;
        push_be16(&mut buffer, long);
        buffer.push(data_len as u8);
        push_all(&mut buffer, data.as_bytes());
    }
    assert(buffer@ =~= head + record_data(typer@, data@, priority));
    assert(buffer@ =~= answer_record(name@, ttl, class@, typer@, data@, priority));
    buffer
}

/// Writes an answer record into `buffer` at `offset` and gives its length
/// (kept to its low sixteen bits).
pub fn write_buffer(
    buffer: &mut [u8],
    offset: usize,
    name: &str,
    ttl: u32,
    class: &str,
    typer: &str,
    data: &str,
    priority: u16,
) -> (r: u16)
    requires
        record_data_fits(typer@, data@),
        offset + answer_record(name@, ttl, class@, typer@, data@, priority).len() <= old(
            buffer,
        )@.len(),
    ensures
        ({
            let rec = answer_record(name@, ttl, class@, typer@, data@, priority);
            &&& final(buffer)@ == old(buffer)@.take(offset as int) + rec + old(buffer)@.skip(
                offset + rec.len(),
            )
            &&& r == #[verifier::truncate] (rec.len() as u16)
        }),
{
    let new_buffer = convert_to_vec(name, ttl, class, typer, data, priority);
    let ghost rec = new_buffer@;
    let n = new_buffer.len();
    let mut j: usize = 0;
    while j < n
        invariant
            n == rec.len(),
            rec == new_buffer@,
            offset + n <= buffer.len(),
            buffer@.len() == old(buffer)@.len(),
            j <= n,
            buffer@ == old(buffer)@.take(offset as int) + rec.take(j as int) + old(buffer)@.skip(
                offset + j,
            ),
        decreases n - j,
    {
        let ghost prev = buffer@;
        buffer[offset + j] = new_buffer[j];
        assert(buffer@ =~= old(buffer)@.take(offset as int) + rec.take(j + 1) + old(
            buffer,
        )@.skip(offset + j + 1));
        j = j + 1;
    }
    assert(rec.take(n as int) =~= rec);
    #[verifier::truncate] (n as u16)
}

// ---------------------------------------------------------------------------
// The length of a name on the wire
// ---------------------------------------------------------------------------

/// The bytes of all labels together.
pub open spec fn total_len(ls: Seq<Seq<u8>>) -> int
    decreases ls.len(),
{
    if ls.len() == 0 {
        0
    } else {
        total_len(ls.drop_last()) + ls.last().len()
    }
}

proof fn lemma_total_len_front(ls: Seq<Seq<u8>>)
    requires
        ls.len() > 0,
    ensures
        total_len(ls) == ls[0].len() + total_len(ls.drop_first()),
    decreases ls.len(),
{
    if ls.len() > 1 {
        lemma_total_len_front(ls.drop_last());
        assert(ls.drop_last().drop_first() =~= ls.drop_first().drop_last());
        assert(ls.drop_first().last() == ls.last());
        assert(ls.drop_last()[0] == ls[0]);
        assert(total_len(ls.drop_first()) == total_len(ls.drop_first().drop_last())
            + ls.drop_first().last().len());
    } else {
        assert(ls.drop_last().len() == 0);
        assert(ls.drop_first().len() == 0);
        assert(total_len(ls.drop_last()) == 0);
        assert(total_len(ls.drop_first()) == 0);
        assert(ls.last() == ls[0]);
        assert(total_len(ls) == total_len(ls.drop_last()) + ls.last().len());
    }
}

proof fn lemma_split_total(s: Seq<u8>, sep: u8)
    ensures
        total_len(split_on(s, sep)) + split_on(s, sep).len() - 1 == s.len(),
    decreases s.len(),
{
    if s.len() > 0 {
        let prev = split_on(s.drop_last(), sep);
        lemma_split_total(s.drop_last(), sep);
        crate::text::lemma_split_on_nonempty(s.drop_last(), sep);
        assert(total_len(prev) == total_len(prev.drop_last()) + prev.last().len());
        if s.last() != sep {
            let cur = prev.update(prev.len() - 1, prev.last().push(s.last()));
            assert(split_on(s, sep) == cur);
            assert(cur.drop_last() =~= prev.drop_last());
            assert(total_len(cur) == total_len(cur.drop_last()) + cur.last().len());
        } else {
            let cur = prev.push(Seq::<u8>::empty());
            assert(split_on(s, sep) == cur);
            assert(cur.drop_last() =~= prev);
            assert(total_len(cur) == total_len(cur.drop_last()) + cur.last().len());
        }
    } else {
        let one = seq![Seq::<u8>::empty()];
        assert(split_on(s, sep) == one);
        assert(one.drop_last().len() == 0);
        assert(total_len(one) == total_len(one.drop_last()) + one.last().len());
    }
}

proof fn lemma_encode_labels_len(ls: Seq<Seq<u8>>)
    requires
        ls.len() > 0,
        forall|i: int| 0 <= i < ls.len() - 1 ==> 0 < #[trigger] ls[i].len(),
    ensures
        encode_labels(ls).len() == total_len(ls) + ls.len(),
        ls.last().len() == 0 ==> encode_labels(ls).last() == 0,
    decreases ls.len(),
{
    lemma_total_len_front(ls);
    let rest = ls.drop_first();
    if ls.len() == 1 {
        assert(rest.len() == 0);
        if ls[0].len() > 0 {
            assert(encode_labels(ls) == seq![ls[0].len() as u8] + ls[0] + encode_labels(rest));
        }
    } else {
        assert forall|i: int| 0 <= i < rest.len() - 1 implies 0 < #[trigger] rest[i].len() by {
            assert(rest[i] == ls[i + 1]);
        }
        assert(ls[0].len() > 0);
        lemma_encode_labels_len(rest);
        assert(rest.last() == ls.last());
        let head = seq![ls[0].len() as u8] + ls[0];
        assert(encode_labels(ls) == head + encode_labels(rest));
    }
}

/// A dotted name none of whose labels is empty, but for a last one left
/// empty by a final dot, takes one byte more on the wire than as text; and
/// where it ends with a dot, or is empty, its encoding ends with the zero
/// byte of the root.
pub proof fn law_encoded_name_length(name: Seq<u8>)
    requires
        forall|i: int|
            0 <= i < split_on(name, 46u8).len() - 1 ==> 0 < #[trigger] split_on(name, 46u8)[i].len(),
    ensures
        encode_name(name).len() == name.len() + 1,
        split_on(name, 46u8).last().len() == 0 ==> encode_name(name).last() == 0,
{
    crate::text::lemma_split_on_nonempty(name, 46u8);
    lemma_split_total(name, 46u8);
    lemma_encode_labels_len(split_on(name, 46u8));
}

/// The labels, each after its length, one after the other.
pub open spec fn length_prefixed(ls: Seq<Seq<u8>>) -> Seq<u8>
    decreases ls.len(),
{
    if ls.len() == 0 {
        seq![]
    } else {
        seq![ls[0].len() as u8] + ls[0] + length_prefixed(ls.drop_first())
    }
}

/// The encoding of labels is the labels before the first empty one, each
/// after its length, then a zero byte where there is an empty label.
pub proof fn law_encode_labels_prefix(ls: Seq<Seq<u8>>, k: int)
    requires
        0 <= k <= ls.len(),
        forall|i: int| 0 <= i < k ==> #[trigger] ls[i].len() > 0,
        k < ls.len() ==> ls[k].len() == 0,
    ensures
        encode_labels(ls) == length_prefixed(ls.take(k)) + (if k < ls.len() {
            seq![0u8]
        } else {
            Seq::<u8>::empty()
        }),
    decreases k,
{
    if k == 0 {
        assert(ls.take(0).len() == 0);
        if ls.len() > 0 {
            assert(encode_labels(ls) == seq![0u8]);
        }
        assert(length_prefixed(ls.take(0)) =~= Seq::<u8>::empty());
    } else {
        let rest = ls.drop_first();
        assert forall|i: int| 0 <= i < k - 1 implies #[trigger] rest[i].len() > 0 by {
            assert(rest[i] == ls[i + 1]);
        }
        if k - 1 < rest.len() {
            assert(rest[k - 1] == ls[k]);
        }
        law_encode_labels_prefix(rest, k - 1);
        assert(ls[0].len() > 0);
        assert(ls.take(k).drop_first() =~= rest.take(k - 1));
        assert(ls.take(k)[0] == ls[0]);
        assert(encode_labels(ls) == seq![ls[0].len() as u8] + ls[0] + encode_labels(rest));
        assert(length_prefixed(ls.take(k)) == seq![ls[0].len() as u8] + ls[0] + length_prefixed(
            rest.take(k - 1),
        ));
        assert(encode_labels(ls) =~= length_prefixed(ls.take(k)) + (if k < ls.len() {
            seq![0u8]
        } else {
            Seq::<u8>::empty()
        }));
    }
}

/// Reads length-prefixed labels back, stopping at a zero length or at the
/// end of the bytes.
pub open spec fn read_labels(bytes: Seq<u8>) -> Seq<Seq<u8>>
    decreases bytes.len(),
{
    if bytes.len() == 0 {
        seq![]
    } else if bytes[0] == 0 {
        seq![]
    } else {
        let end = if 1 + bytes[0] <= bytes.len() {
            1 + bytes[0]
        } else {
            bytes.len() as int
        };
        seq![bytes.subrange(1, end)] + read_labels(bytes.skip(end))
    }
}

/// The labels before the first empty one.
pub open spec fn labels_before_empty(ls: Seq<Seq<u8>>) -> Seq<Seq<u8>>
    decreases ls.len(),
{
    if ls.len() == 0 || ls[0].len() == 0 {
        seq![]
    } else {
        seq![ls[0]] + labels_before_empty(ls.drop_first())
    }
}

proof fn lemma_read_back(ls: Seq<Seq<u8>>)
    requires
        forall|i: int| 0 <= i < ls.len() ==> #[trigger] ls[i].len() <= 255,
    ensures
        read_labels(encode_labels(ls)) == labels_before_empty(ls),
    decreases ls.len(),
{
    if ls.len() > 0 && ls[0].len() > 0 {
        let rest = ls.drop_first();
        assert forall|i: int| 0 <= i < rest.len() implies #[trigger] rest[i].len() <= 255 by {
            assert(rest[i] == ls[i + 1]);
        }
        lemma_read_back(rest);
        let head = seq![ls[0].len() as u8] + ls[0];
        let e = head + encode_labels(rest);
        assert(encode_labels(ls) == e);
        assert(e[0] == ls[0].len() as u8);
        assert(e.subrange(1, 1 + ls[0].len() as int) =~= ls[0]);
        assert(e.skip(1 + ls[0].len() as int) =~= encode_labels(rest));
    } else if ls.len() > 0 {
        assert(encode_labels(ls) == seq![0u8]);
    }
}

proof fn lemma_before_empty_all(ls: Seq<Seq<u8>>)
    requires
        ls.len() > 0,
        forall|i: int| 0 <= i < ls.len() - 1 ==> 0 < #[trigger] ls[i].len(),
    ensures
        labels_before_empty(ls) == (if ls.last().len() == 0 {
            ls.drop_last()
        } else {
            ls
        }),
    decreases ls.len(),
{
    let rest = ls.drop_first();
    if ls.len() == 1 {
        if ls[0].len() > 0 {
            assert(labels_before_empty(rest) == Seq::<Seq<u8>>::empty());
            assert(labels_before_empty(ls) =~= ls);
        } else {
            assert(ls.drop_last() =~= Seq::<Seq<u8>>::empty());
        }
    } else {
        assert forall|i: int| 0 <= i < rest.len() - 1 implies 0 < #[trigger] rest[i].len() by {
            assert(rest[i] == ls[i + 1]);
        }
        assert(ls[0].len() > 0);
        lemma_before_empty_all(rest);
        assert(rest.last() == ls.last());
        assert(rest.drop_last() =~= ls.drop_last().drop_first());
        assert(seq![ls[0]] + rest =~= ls);
        assert(seq![ls[0]] + rest.drop_last() =~= ls.drop_last());
    }
}

/// Reading the encoding of a dotted name back, label by label, gives its
/// labels in order, where none is empty (but for a last one left empty by a
/// final dot, which is not read back) and none is longer than 255 bytes.
pub proof fn law_encoded_name_reads_back(name: Seq<u8>)
    requires
        forall|i: int|
            0 <= i < split_on(name, 46u8).len() - 1 ==> 0 < #[trigger] split_on(name, 46u8)[i].len(),
        forall|i: int|
            0 <= i < split_on(name, 46u8).len() ==> #[trigger] split_on(name, 46u8)[i].len() <= 255,
    ensures
        read_labels(encode_name(name)) == (if split_on(name, 46u8).last().len() == 0 {
            split_on(name, 46u8).drop_last()
        } else {
            split_on(name, 46u8)
        }),
{
    crate::text::lemma_split_on_nonempty(name, 46u8);
    lemma_read_back(split_on(name, 46u8));
    lemma_before_empty_all(split_on(name, 46u8));
}

// ---------------------------------------------------------------------------
// The length field of a record's data
// ---------------------------------------------------------------------------

/// Data of at most 65532 bytes always fits its 16-bit length field, so
/// writing its record needs nothing more than room in the buffer.
pub proof fn law_short_data_fits(typer: Seq<char>, data: Seq<char>)
    requires
        encode_utf8(data).len() <= 65532,
    ensures
        record_data_fits(typer, data),
{
}

proof fn lemma_be16_value(v: u16)
    ensures
        be16(v).len() == 2,
        be16(v)[0] as int * 256 + be16(v)[1] as int == v as int,
{
}

/// Where the data is short and of the shape its type expects, the length
/// field of a record equals the number of bytes that follow it; a text
/// record gives the length of its text and then the text, and a mail record
/// gives its preference first.
pub proof fn law_record_length_field(
    name: Seq<char>,
    ttl: u32,
    class: Seq<char>,
    typer: Seq<char>,
    data: Seq<char>,
    priority: u16,
)
    requires
        encode_utf8(data).len() <= 255,
        typer == seq!['T', 'X', 'T'] || (typer == seq!['A'] && split_on(data, '.').len() == 4) || ((
        is_cname_or_ns(typer) || typer == seq!['M', 'X']) && forall|i: int|
            0 <= i < split_on(encode_utf8(data), 46u8).len() - 1 ==> 0 < #[trigger] split_on(
                encode_utf8(data),
                46u8,
            )[i].len()),
    ensures
        ({
            let n = encode_name(encode_utf8(name)).len() as int;
            let rec = answer_record(name, ttl, class, typer, data, priority);
            let bytes = encode_utf8(data);
            &&& rec.len() >= n + 10
            &&& rec[n + 8] as int * 256 + rec[n + 9] as int == rec.len() - (n + 10)
            &&& typer == seq!['T', 'X', 'T'] ==> rec[n + 10] == bytes.len() && rec.subrange(
                n + 11,
                rec.len() as int,
            ) == bytes
            &&& typer == seq!['M', 'X'] ==> rec.subrange(n + 10, n + 12) == be16(priority)
        }),
{
    let bytes = encode_utf8(data);
    let n = encode_name(encode_utf8(name)).len() as int;
    let head = encode_name(encode_utf8(name)) + be16(type_class_code(typer)) + be16(
        type_class_code(class),
    ) + be32(ttl);
    let rd = record_data(typer, data, priority);
    let rec = answer_record(name, ttl, class, typer, data, priority);
    assert(head.len() == n + 8);
    assert(rec == head + rd);
    let l = bytes.len();
    assert((l as u16) as int == l);
    if typer == seq!['A'] {
        let octets = split_on(data, '.').map_values(|p: Seq<char>| octet_or_zero(p));
        assert(rd == be16(4) + octets);
        lemma_be16_value(4);
    } else if is_cname_or_ns(typer) {
        law_encoded_name_length(bytes);
        let v = (1 + (l as u16)) as u16;
        assert(v as int == 1 + l);
        assert(rd == be16(v) + encode_name(bytes));
        lemma_be16_value(v);
    } else if typer == seq!['M', 'X'] {
        law_encoded_name_length(bytes);
        let v = (3 + (l as u16)) as u16;
        assert(v as int == 3 + l);
        assert(rd == be16(v) + be16(priority) + encode_name(bytes));
        lemma_be16_value(v);
        assert(rec.subrange(n + 10, n + 12) =~= be16(priority));
    } else {
        let v = (1 + (l as u16)) as u16;
        assert(v as int == 1 + l);
        assert(rd == be16(v) + seq![l as u8] + bytes);
        lemma_be16_value(v);
        assert(rec.subrange(n + 11, rec.len() as int) =~= bytes);
    }
    assert(rec[n + 8] == rd[0]);
    assert(rec[n + 9] == rd[1]);
}

} // verus!
