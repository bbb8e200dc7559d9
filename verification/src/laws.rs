use vstd::prelude::*;

use crate::answer::{answer_record, be16, be32, encode_name, type_class_code, is_cname_or_ns, record_data, record_data_fits};
use crate::text::{all_digits, digits_value, parse_unsigned, split_on, unsigned_digits, wide_alphanumeric};
use vstd::utf8::encode_utf8;
use crate::register::{holds_mx, holds_record, mode_name, records_filed, record_key, mx_key, search_result, RegisterView, RegistryView};
use crate::validate::{domain_char, valid_domain, valid_ip};
use crate::server::{answer_matches, query_type, Answer};
use crate::zone::{
    complete_step, initial_context, kw_a, kw_mx, load_state, manage_step, token_step,
    ContextView, LoadState,
};

verus! {

// ---------------------------------------------------------------------------
// What loading zones keeps true
// ---------------------------------------------------------------------------

/// A record whose answer is what its type promises: an address record
/// answers a dotted quad, an alias or name server record a domain name.
pub open spec fn sound_record(r: RegisterView) -> bool {
    &&& r.register_type == kw_a() ==> valid_ip(r.answer)
    &&& is_cname_or_ns(r.register_type) ==> valid_domain(r.answer)
}

/// Every record sound, and every MX record naming a domain.
pub open spec fn sound_registry(reg: RegistryView) -> bool {
    &&& forall|k: (Seq<char>, Seq<char>)| #[trigger]
        reg.records.contains_key(k) ==> sound_record(reg.records[k])
    &&& forall|k: (Seq<char>, u16)| #[trigger] reg.mx.contains_key(k) ==> valid_domain(reg.mx[k].answer)
}

/// The address and the domain that a reader holds are valid where set.
pub open spec fn sound_context(c: ContextView) -> bool {
    &&& c.current_ip.len() > 0 ==> valid_ip(c.current_ip)
    &&& c.current_domain.len() > 0 ==> valid_domain(c.current_domain)
}

proof fn lemma_step_sound(s: LoadState, t: Seq<char>)
    requires
        sound_context(s.0),
        sound_registry(s.1),
    ensures
        sound_context(token_step(s, t).0),
        sound_registry(token_step(s, t).1),
{
    let c = s.0;
    let reg = s.1;
    let (c2, taken) = manage_step(t, c);
    if taken {
        let (reg2, complete) = complete_step(c.last_record, c2, reg);
        if c.last_record == kw_mx() && c.mx_priority == 0 {
            assert(c2.current_domain == c.current_domain);
        }
        assert(sound_registry(reg2)) by {
            assert forall|k: (Seq<char>, Seq<char>)| #[trigger]
                reg2.records.contains_key(k) implies sound_record(reg2.records[k]) by {
                assert(reg.records.contains_key(k) && reg2.records[k] == reg.records[k] || sound_record(
                    reg2.records[k],
                ));
            }
            assert forall|k: (Seq<char>, u16)| #[trigger] reg2.mx.contains_key(k) implies valid_domain(
                reg2.mx[k].answer,
            ) by {
                assert(reg.mx.contains_key(k) && reg2.mx[k] == reg.mx[k] || valid_domain(
                    reg2.mx[k].answer,
                ));
            }
        }
    }
}

/// Reading zones never files an address record that holds anything but a
/// dotted quad, nor an alias, name server or MX record whose answer is not a
/// domain name: where the registry started so, it stays so.
pub proof fn law_loading_keeps_records_sound(tokens: Seq<Seq<char>>, start: RegistryView)
    requires
        sound_registry(start),
    ensures
        sound_registry(load_state(tokens, (initial_context(), start)).1),
{
    lemma_load_sound(tokens, start);
}

proof fn lemma_load_sound(tokens: Seq<Seq<char>>, start: RegistryView)
    requires
        sound_registry(start),
    ensures
        sound_context(load_state(tokens, (initial_context(), start)).0),
        sound_registry(load_state(tokens, (initial_context(), start)).1),
    decreases tokens.len(),
{
    if tokens.len() > 0 {
        lemma_load_sound(tokens.drop_last(), start);
        lemma_step_sound(load_state(tokens.drop_last(), (initial_context(), start)), tokens.last());
    }
}

/// Reading zones never takes a record away: every (name, class) and every
/// (name, preference) that held a record still holds one.
pub proof fn law_loading_keeps_names(tokens: Seq<Seq<char>>, start: LoadState)
    ensures
        forall|k: (Seq<char>, Seq<char>)|
            start.1.records.contains_key(k) ==> #[trigger] load_state(tokens, start).1.records.contains_key(k),
        forall|k: (Seq<char>, u16)|
            start.1.mx.contains_key(k) ==> #[trigger] load_state(tokens, start).1.mx.contains_key(k),
    decreases tokens.len(),
{
    if tokens.len() > 0 {
        law_loading_keeps_names(tokens.drop_last(), start);
        lemma_step_keeps_names(load_state(tokens.drop_last(), start), tokens.last());
    }
}

proof fn lemma_step_keeps_names(s: LoadState, t: Seq<char>)
    ensures
        forall|k: (Seq<char>, Seq<char>)|
            s.1.records.contains_key(k) ==> #[trigger] token_step(s, t).1.records.contains_key(k),
        forall|k: (Seq<char>, u16)|
            s.1.mx.contains_key(k) ==> #[trigger] token_step(s, t).1.mx.contains_key(k),
{
    let (c2, taken) = manage_step(t, s.0);
    let (reg2, complete) = complete_step(s.0.last_record, c2, s.1);
    assert(forall|k: (Seq<char>, Seq<char>)|
        s.1.records.contains_key(k) ==> #[trigger] reg2.records.contains_key(k));
    assert(forall|k: (Seq<char>, u16)| s.1.mx.contains_key(k) ==> #[trigger] reg2.mx.contains_key(k));
}

// ---------------------------------------------------------------------------
// What a lookup gives back
// ---------------------------------------------------------------------------

/// A record filed under a name and class is what a lookup of that name with
/// a query type selecting that class gives back.
pub proof fn law_lookup_after_insert(
    recs: Map<(Seq<char>, Seq<char>), RegisterView>,
    r: RegisterView,
    mode: u16,
    found: Option<RegisterView>,
)
    requires
        mode > 0,
        mode_name(mode) == r.mode,
        search_result(recs.insert(record_key(r), r), r.question, mode, found),
    ensures
        found == Some(r),
{
}

/// A name that holds any record is never reported unknown: a lookup of it
/// gives a record of that name.
pub proof fn law_known_name_found(
    recs: Map<(Seq<char>, Seq<char>), RegisterView>,
    k: (Seq<char>, Seq<char>),
    mode: u16,
    found: Option<RegisterView>,
)
    requires
        records_filed(recs),
        recs.contains_key(k),
        search_result(recs, k.0, mode, found),
    ensures
        found matches Some(x) && x.question == k.0,
{
}

// ---------------------------------------------------------------------------
// What validation promises of the wire format
// ---------------------------------------------------------------------------

/// The data of a record whose answer is a domain name always fits its
/// 16-bit length field, whatever the record's type.
pub proof fn law_valid_domain_fits(typer: Seq<char>, data: Seq<char>)
    requires
        valid_domain(data),
    ensures
        record_data_fits(typer, data),
{
}

/// The data of an address record holding a dotted quad is its length, 4,
/// then the four octets.
pub proof fn law_valid_ip_record_data(data: Seq<char>, priority: u16)
    requires
        valid_ip(data),
    ensures
        record_data(kw_a(), data, priority).len() == 6,
        record_data(kw_a(), data, priority)[0] == 0,
        record_data(kw_a(), data, priority)[1] == 4,
{
}

// ---------------------------------------------------------------------------
// What a query for an unknown name is answered
// ---------------------------------------------------------------------------

/// A query for a name that holds no record of any kind gets response code
/// 3, no answer records, and the message as it was.
pub proof fn law_unknown_name_answer(
    recs: Map<(Seq<char>, Seq<char>), RegisterView>,
    mx: Map<(Seq<char>, u16), RegisterView>,
    domain: Seq<char>,
    before: Seq<u8>,
    after: Seq<u8>,
    len: u16,
    outcome: Option<Answer>,
    mxs: Seq<RegisterView>,
    first: Option<RegisterView>,
    second: Option<RegisterView>,
)
    requires
        records_filed(recs),
        forall|k: (Seq<char>, Seq<char>)| #[trigger] recs.contains_key(k) ==> recs[k].question != domain,
        forall|k: (Seq<char>, u16)| #[trigger] mx.contains_key(k) ==> mx[k].question != domain,
        query_type(before, len) is Some,
        answer_matches(recs, mx, domain, before, after, len, outcome, mxs, first, second),
    ensures
        outcome == Some(Answer { length: len, responses: 0, error: 3 }),
        after == before,
{
    if mxs.len() > 0 {
        assert(mxs.contains(mxs[0]));
        assert(mx.contains_key(mx_key(mxs[0])));
    }
    let key = (domain, mode_name(query_type(before, len)->0));
    if recs.contains_key(key) {
        assert(recs[key].question != domain);
    }
}

/// A query for a name that holds MX records is answered with all of them,
/// each once, and nothing else.
pub proof fn law_mail_answer_lists_all(
    recs: Map<(Seq<char>, Seq<char>), RegisterView>,
    mx: Map<(Seq<char>, u16), RegisterView>,
    domain: Seq<char>,
    before: Seq<u8>,
    after: Seq<u8>,
    len: u16,
    a: Answer,
    mxs: Seq<RegisterView>,
    first: Option<RegisterView>,
    second: Option<RegisterView>,
    x: RegisterView,
)
    requires
        holds_mx(mx, x),
        x.question == domain,
        answer_matches(recs, mx, domain, before, after, len, Some(a), mxs, first, second),
    ensures
        a.responses == mxs.len(),
        a.error == 0,
        mxs.contains(x),
        mxs.no_duplicates(),
        forall|y: RegisterView| #[trigger] mxs.contains(y) ==> holds_mx(mx, y) && y.question == domain,
{
    assert(mxs.contains(x));
}

/// An alias or name server record is answered together with the record of
/// its target where the target holds one; the second record is of that
/// target.
pub proof fn law_alias_answer_carries_target(
    recs: Map<(Seq<char>, Seq<char>), RegisterView>,
    mx: Map<(Seq<char>, u16), RegisterView>,
    domain: Seq<char>,
    before: Seq<u8>,
    after: Seq<u8>,
    len: u16,
    a: Answer,
    mxs: Seq<RegisterView>,
    f: RegisterView,
    second: Option<RegisterView>,
)
    requires
        records_filed(recs),
        mxs.len() == 0,
        f.register_type == seq!['C', 'N', 'A', 'M', 'E'] || f.register_type == seq!['N', 'S'],
        answer_matches(recs, mx, domain, before, after, len, Some(a), mxs, Some(f), second),
    ensures
        a.responses == 2 <==> second is Some,
        second matches Some(s) ==> s.question == f.answer && holds_record(recs, s),
        second is None ==> a.responses == 1 && a.error == 2,
        recs.contains_key((f.answer, seq!['I', 'N'])) ==> second == Some(
            recs[(f.answer, seq!['I', 'N'])],
        ),
        second is None ==> forall|k: (Seq<char>, Seq<char>)| #[trigger]
            recs.contains_key(k) ==> recs[k].question != f.answer,
{
    let key = (f.answer, mode_name(1));
    if recs.contains_key(key) {
        assert(record_key(recs[key]) == key);
    }
}

// ---------------------------------------------------------------------------
// Where the names of loaded records come from
// ---------------------------------------------------------------------------

/// A name that is empty or one of the words.
pub open spec fn named_by(words: Seq<Seq<char>>, name: Seq<char>) -> bool {
    name.len() == 0 || words.contains(name)
}

/// Whether the registry holds, under `k`, something other than `start` did.
pub open spec fn record_changed(
    start: Map<(Seq<char>, Seq<char>), RegisterView>,
    now: Map<(Seq<char>, Seq<char>), RegisterView>,
    k: (Seq<char>, Seq<char>),
) -> bool {
    now.contains_key(k) && (!start.contains_key(k) || now[k] != start[k])
}

/// Whether the registry holds, under `k`, an MX record other than `start` did.
pub open spec fn mx_changed(
    start: Map<(Seq<char>, u16), RegisterView>,
    now: Map<(Seq<char>, u16), RegisterView>,
    k: (Seq<char>, u16),
) -> bool {
    now.contains_key(k) && (!start.contains_key(k) || now[k] != start[k])
}

proof fn lemma_contains_push(ws: Seq<Seq<char>>, t: Seq<char>, x: Seq<char>)
    requires
        ws.contains(x),
    ensures
        ws.push(t).contains(x),
{
    let i = choose|i: int| 0 <= i < ws.len() && ws[i] == x;
    assert(ws.push(t)[i] == x);
}

proof fn lemma_load_names(tokens: Seq<Seq<char>>, start: RegistryView)
    ensures
        named_by(tokens, load_state(tokens, (initial_context(), start)).0.current_origin),
        forall|k: (Seq<char>, Seq<char>)|
            #[trigger] record_changed(start.records, load_state(tokens, (initial_context(), start)).1.records, k)
                ==> named_by(tokens, k.0),
        forall|k: (Seq<char>, u16)|
            #[trigger] mx_changed(start.mx, load_state(tokens, (initial_context(), start)).1.mx, k)
                ==> tokens.contains(k.0),
    decreases tokens.len(),
{
    if tokens.len() > 0 {
        let prev = tokens.drop_last();
        let t = tokens.last();
        lemma_load_names(prev, start);
        let s = load_state(prev, (initial_context(), start));
        let s2 = token_step(s, t);
        assert(load_state(tokens, (initial_context(), start)) == s2);
        assert(tokens == prev.push(t));
        assert(tokens.contains(t)) by {
            assert(tokens[tokens.len() - 1] == t);
        }
        if s.0.current_origin.len() > 0 {
            lemma_contains_push(prev, t, s.0.current_origin);
        }
        let (c2, taken) = manage_step(t, s.0);
        assert(c2.current_origin == s.0.current_origin || c2.current_origin == t);
        assert(named_by(tokens, s2.0.current_origin));
        assert forall|k: (Seq<char>, Seq<char>)|
            #[trigger] record_changed(start.records, s2.1.records, k) implies named_by(tokens, k.0) by {
            if record_changed(start.records, s.1.records, k) && s2.1.records.contains_key(k)
                && s.1.records.contains_key(k) && s2.1.records[k] == s.1.records[k] {
                if k.0.len() > 0 {
                    lemma_contains_push(prev, t, k.0);
                }
            } else {
                assert(k.0 == c2.current_origin);
            }
        }
        assert forall|k: (Seq<char>, u16)|
            #[trigger] mx_changed(start.mx, s2.1.mx, k) implies tokens.contains(k.0) by {
            if mx_changed(start.mx, s.1.mx, k) && s2.1.mx.contains_key(k) && s.1.mx.contains_key(k)
                && s2.1.mx[k] == s.1.mx[k] {
                lemma_contains_push(prev, t, k.0);
            } else {
                assert(k.0 == c2.current_origin);
                assert(k.0.len() > 0);
            }
        }
    }
}

/// Every record that reading zones files or replaces is filed under a name
/// that is one of the words read (or, for records that are not MX, under
/// the empty name, before any origin is set).
pub proof fn law_loaded_names_are_words(tokens: Seq<Seq<char>>, start: RegistryView)
    ensures
        forall|k: (Seq<char>, Seq<char>)|
            #[trigger] record_changed(start.records, load_state(tokens, (initial_context(), start)).1.records, k)
                ==> named_by(tokens, k.0),
        forall|k: (Seq<char>, u16)|
            #[trigger] mx_changed(start.mx, load_state(tokens, (initial_context(), start)).1.mx, k)
                ==> tokens.contains(k.0),
{
    lemma_load_names(tokens, start);
}

// ---------------------------------------------------------------------------
// Laws stated over literal words and numbers
// ---------------------------------------------------------------------------

/// A query for a name without MX records whose record is neither an alias
/// (CNAME) nor a name server (NS) record is answered with exactly that one
/// record, written after the question, and response code 0.
pub proof fn law_plain_record_answered_alone(
    recs: Map<(Seq<char>, Seq<char>), RegisterView>,
    mx: Map<(Seq<char>, u16), RegisterView>,
    domain: Seq<char>,
    before: Seq<u8>,
    after: Seq<u8>,
    len: u16,
    a: Answer,
    mxs: Seq<RegisterView>,
    f: RegisterView,
    second: Option<RegisterView>,
)
    requires
        mxs.len() == 0,
        f.register_type != seq!['C', 'N', 'A', 'M', 'E'],
        f.register_type != seq!['N', 'S'],
        answer_matches(recs, mx, domain, before, after, len, Some(a), mxs, Some(f), second),
    ensures
        a.responses == 1,
        a.error == 0,
        ({
            let rec = answer_record(f.question, f.ttl, f.mode, f.register_type, f.answer, 0);
            &&& after == before.take(11 + len) + rec + before.skip(11 + len + rec.len())
            &&& before.len() <= 65535 ==> a.length as int == len + rec.len()
        }),
{
}

/// After `$TTL` followed by a decimal number of at most 4294967295, the
/// reader takes the word, and the time to live of what follows is that
/// number.
pub proof fn law_ttl_directive(token: Seq<char>, c: ContextView)
    requires
        c.last_record == seq!['$', 'T', 'T', 'L'],
        token.len() > 0,
        forall|i: int| 0 <= i < token.len() ==> '0' <= #[trigger] token[i] && token[i] <= '9',
        digits_value(token) <= 4294967295,
    ensures
        manage_step(token, c).1,
        manage_step(token, c).0.current_ttl as int == digits_value(token),
        manage_step(token, c).0.last_record.len() == 0,
{
    assert(unsigned_digits(token) == token);
}

/// Query types 1, 3 and 4 select the classes IN, CH and HS: a record of
/// that class filed under a name is what a lookup of the name with that
/// query type gives back, whatever other classes the name holds.
pub proof fn law_query_type_selects_class(
    recs: Map<(Seq<char>, Seq<char>), RegisterView>,
    r: RegisterView,
    mode: u16,
    found: Option<RegisterView>,
)
    requires
        (mode == 1 && r.mode == seq!['I', 'N']) || (mode == 3 && r.mode == seq!['C', 'H']) || (mode
            == 4 && r.mode == seq!['H', 'S']),
        search_result(recs.insert(record_key(r), r), r.question, mode, found),
    ensures
        found == Some(r),
{
}

/// An address is accepted exactly when it has four dot-separated parts and
/// every one of them, the last included, is a decimal number (after an
/// optional `+`) of at most 255.
pub proof fn law_ip_parts_are_octets(s: Seq<char>)
    ensures
        valid_ip(s) <==> {
            let parts = split_on(s, '.');
            &&& parts.len() == 4
            &&& forall|i: int|
                0 <= i < 4 ==> {
                    let d = unsigned_digits(#[trigger] parts[i]);
                    &&& d.len() > 0
                    &&& forall|j: int| 0 <= j < d.len() ==> '0' <= #[trigger] d[j] && d[j] <= '9'
                    &&& digits_value(d) <= 255
                }
        },
{
    let parts = split_on(s, '.');
    if parts.len() == 4 {
        assert forall|i: int| 0 <= i < 4 implies (parse_unsigned(#[trigger] parts[i], 255) is Some
            <==> {
            let d = unsigned_digits(parts[i]);
            &&& d.len() > 0
            &&& forall|j: int| 0 <= j < d.len() ==> '0' <= #[trigger] d[j] && d[j] <= '9'
            &&& digits_value(d) <= 255
        }) by {
            let d = unsigned_digits(parts[i]);
            assert(all_digits(d) <==> forall|j: int|
                0 <= j < d.len() ==> '0' <= #[trigger] d[j] && d[j] <= '9');
        }
    }
}

/// A name of at most 63 bytes made of ASCII letters of either case, digits,
/// `-`, `.` and alphabetic or numeric chars beyond ASCII, with at least
/// three dot-separated parts, the first not starting and the one before the
/// last not ending with `-`, is a valid domain name.
pub proof fn law_domain_letters_of_either_case(s: Seq<char>)
    requires
        encode_utf8(s).len() <= 63,
        forall|i: int|
            0 <= i < s.len() ==> {
                let c = #[trigger] s[i];
                ||| 'a' <= c && c <= 'z'
                ||| 'A' <= c && c <= 'Z'
                ||| '0' <= c && c <= '9'
                ||| c == '-'
                ||| c == '.'
                ||| (c as u32) >= 128 && wide_alphanumeric(c)
            },
        split_on(s, '.').len() >= 3,
        !(split_on(s, '.')[0].len() > 0 && split_on(s, '.')[0][0] == '-'),
        !(split_on(s, '.')[split_on(s, '.').len() - 2].len() > 0 && split_on(s, '.')[split_on(
            s,
            '.',
        ).len() - 2].last() == '-'),
    ensures
        valid_domain(s),
{
    assert forall|i: int| 0 <= i < s.len() implies domain_char(#[trigger] s[i]) by {
        let c = s[i];
        if ('a' <= c && c <= 'z') || ('A' <= c && c <= 'Z') || ('0' <= c && c <= '9') {
            assert((c as u32) < 128);
        }
    }
}

/// The codes of type and class words: NS 2, CH 3, HS 4, CNAME 5, MX 15,
/// TXT 16, and 1 for A, IN and every other word.
pub proof fn law_type_class_codes(w: Seq<char>)
    ensures
        type_class_code(w) == (if w == seq!['N', 'S'] {
            2u16
        } else if w == seq!['C', 'H'] {
            3
        } else if w == seq!['H', 'S'] {
            4
        } else if w == seq!['C', 'N', 'A', 'M', 'E'] {
            5
        } else if w == seq!['M', 'X'] {
            15
        } else if w == seq!['T', 'X', 'T'] {
            16
        } else {
            1
        }),
{
    if w == seq!['A'] || w == seq!['I', 'N'] {
        assert(w != seq!['N', 'S'] && w != seq!['C', 'H'] && w != seq!['H', 'S']);
        assert(w != seq!['C', 'N', 'A', 'M', 'E'] && w != seq!['M', 'X'] && w != seq![
            'T',
            'X',
            'T',
        ]);
    }
}

/// A written record starts with its owner name, then the type code, the
/// class code and the time to live, each most significant byte first.
pub proof fn law_record_header(
    name: Seq<char>,
    ttl: u32,
    class: Seq<char>,
    typer: Seq<char>,
    data: Seq<char>,
    priority: u16,
)
    ensures
        ({
            let owner = encode_name(encode_utf8(name));
            let n = owner.len() as int;
            let rec = answer_record(name, ttl, class, typer, data, priority);
            &&& rec.len() >= n + 8
            &&& rec.take(n) == owner
            &&& rec[n] as int * 256 + rec[n + 1] as int == type_class_code(typer) as int
            &&& rec[n + 2] as int * 256 + rec[n + 3] as int == type_class_code(class) as int
            &&& rec[n + 4] as int * 16777216 + rec[n + 5] as int * 65536 + rec[n + 6] as int * 256
                + rec[n + 7] as int == ttl as int
        }),
{
    let owner = encode_name(encode_utf8(name));
    let n = owner.len() as int;
    let rec = answer_record(name, ttl, class, typer, data, priority);
    let t = be16(type_class_code(typer));
    let c = be16(type_class_code(class));
    let l = be32(ttl);
    assert(rec == owner + t + c + l + record_data(typer, data, priority));
    assert(rec.take(n) =~= owner);
    assert(rec[n] == t[0] && rec[n + 1] == t[1]);
    assert(rec[n + 2] == c[0] && rec[n + 3] == c[1]);
    assert(rec[n + 4] == l[0] && rec[n + 5] == l[1] && rec[n + 6] == l[2] && rec[n + 7] == l[3]);
    let v = ttl as int;
    assert(v == (v / 16777216) * 16777216 + ((v / 65536) % 256) * 65536 + ((v / 256) % 256) * 256
        + v % 256) by (nonlinear_arith)
        requires
            0 <= v < 4294967296,
    ;
}

/// Whether `t` is a parenthesis word.
pub open spec fn is_paren(t: Seq<char>) -> bool {
    t == seq!['('] || t == seq![')']
}

/// After reading the zones the reader is inside parentheses exactly when
/// the last parenthesis word read opens one (and, where none was read, as
/// it started).
pub proof fn law_parentheses(tokens: Seq<Seq<char>>, start: LoadState)
    ensures
        (forall|i: int| 0 <= i < tokens.len() ==> !is_paren(#[trigger] tokens[i])) ==> load_state(
            tokens,
            start,
        ).0.inside_parentheses == start.0.inside_parentheses,
        forall|i: int|
            0 <= i < tokens.len() && is_paren(#[trigger] tokens[i]) && (forall|j: int|
                i < j < tokens.len() ==> !is_paren(#[trigger] tokens[j])) ==> load_state(
                tokens,
                start,
            ).0.inside_parentheses == (tokens[i] == seq!['(']),
    decreases tokens.len(),
{
    if tokens.len() > 0 {
        let prev = tokens.drop_last();
        let t = tokens.last();
        law_parentheses(prev, start);
        let s = load_state(prev, start);
        assert(t == tokens[tokens.len() - 1]);
        if !is_paren(t) {
            lemma_step_keeps_parentheses(s, t);
        }
        assert forall|i: int|
            0 <= i < tokens.len() && is_paren(#[trigger] tokens[i]) && (forall|j: int|
                i < j < tokens.len() ==> !is_paren(#[trigger] tokens[j])) implies load_state(
            tokens,
            start,
        ).0.inside_parentheses == (tokens[i] == seq!['(']) by {
            if i < tokens.len() - 1 {
                assert(!is_paren(tokens[tokens.len() - 1]));
                assert(prev[i] == tokens[i]);
                assert forall|j: int| i < j < prev.len() implies !is_paren(#[trigger] prev[j]) by {
                    assert(prev[j] == tokens[j]);
                }
            }
        }
        if forall|i: int| 0 <= i < tokens.len() ==> !is_paren(#[trigger] tokens[i]) {
            assert forall|i: int| 0 <= i < prev.len() implies !is_paren(#[trigger] prev[i]) by {
                assert(prev[i] == tokens[i]);
            }
        }
    }
}

proof fn lemma_step_keeps_parentheses(s: LoadState, t: Seq<char>)
    requires
        !is_paren(t),
    ensures
        token_step(s, t).0.inside_parentheses == s.0.inside_parentheses,
{
    let (c2, taken) = manage_step(t, s.0);
    assert(c2.inside_parentheses == s.0.inside_parentheses);
}

/// An address, alias, name server or text record filed at the end of a
/// record holds the owner name, the time to live and the answer that the
/// reader holds, in the class that was named (IN where none was); an MX
/// record holds the preference and is always of class IN.
pub proof fn law_filed_record_fields(record: Seq<char>, c: ContextView, reg: RegistryView)
    ensures
        ({
            let (reg2, filed) = complete_step(record, c, reg);
            let mode = if c.machine_mode.len() == 0 {
                seq!['I', 'N']
            } else {
                c.machine_mode
            };
            let k = (c.current_origin, mode);
            &&& (filed && record != seq!['M', 'X']) ==> reg2.records.contains_key(k)
                && reg2.records[k].question == c.current_origin && reg2.records[k].ttl
                == c.current_ttl && reg2.records[k].register_type == record && reg2.records[k].mode
                == mode && reg2.records[k].answer == (if record == seq!['A'] {
                c.current_ip
            } else {
                c.current_domain
            }) && reg2.mx == reg.mx
            &&& (filed && record == seq!['M', 'X']) ==> {
                let m = (c.current_origin, c.mx_priority);
                &&& reg2.mx.contains_key(m)
                &&& reg2.mx[m].answer == c.current_domain
                &&& reg2.mx[m].order == c.mx_priority
                &&& reg2.mx[m].ttl == c.current_ttl
                &&& reg2.mx[m].mode == seq!['I', 'N']
                &&& reg2.records == reg.records
            }
            &&& filed ==> (record == seq!['A'] || record == seq!['C', 'N', 'A', 'M', 'E']
                || record == seq!['N', 'S'] || record == seq!['M', 'X'] || record == seq![
                'T',
                'X',
                'T',
            ])
            &&& !filed ==> reg2 == reg
        }),
{
}

/// What the word after each directive or record type does: `$ORIGIN`
/// takes a valid domain as owner name; `A` takes a dotted quad, `CNAME` and
/// `NS` a valid domain, `TXT` any word, once an owner name is set; `MX`
/// first takes its preference (a number up to 65535) and then a valid
/// domain; each takes the word and ends the directive (`MX` only after its
/// domain). After any other word the word is not taken and nothing changes.
pub proof fn law_manage_words(token: Seq<char>, c: ContextView)
    ensures
        ({
            let (c2, taken) = manage_step(token, c);
            let lr = c.last_record;
            let has_origin = c.current_origin.len() > 0;
            &&& lr == seq!['$', 'O', 'R', 'I', 'G', 'I', 'N'] ==> taken && c2.current_origin == (
            if valid_domain(token) {
                token
            } else {
                c.current_origin
            }) && c2.last_record.len() == 0
            &&& lr == seq!['A'] ==> taken && c2.current_ip == (if has_origin && valid_ip(token) {
                token
            } else {
                c.current_ip
            }) && c2.last_record.len() == 0
            &&& (lr == seq!['C', 'N', 'A', 'M', 'E'] || lr == seq!['N', 'S']) ==> taken
                && c2.current_domain == (if has_origin && valid_domain(token) {
                token
            } else {
                c.current_domain
            }) && c2.last_record.len() == 0
            &&& lr == seq!['T', 'X', 'T'] ==> taken && c2.current_domain == (if has_origin {
                token
            } else {
                c.current_domain
            }) && c2.last_record.len() == 0
            &&& (lr == seq!['M', 'X'] && c.mx_priority == 0 && token.len() > 0 && (forall|i: int|
                0 <= i < token.len() ==> '0' <= #[trigger] token[i] && token[i] <= '9')
                && digits_value(token) <= 65535) ==> taken && c2.mx_priority as int == digits_value(
                token,
            ) && c2.last_record == lr
            &&& (lr == seq!['M', 'X'] && c.mx_priority > 0) ==> taken && c2.current_domain == (
            if valid_domain(token) {
                token
            } else {
                c.current_domain
            }) && c2.last_record.len() == 0
            &&& !(lr == seq!['$', 'O', 'R', 'I', 'G', 'I', 'N'] || lr == seq!['$', 'T', 'T', 'L']
                || lr == seq!['A'] || lr == seq!['C', 'N', 'A', 'M', 'E'] || lr == seq!['N', 'S']
                || lr == seq!['M', 'X'] || lr == seq!['T', 'X', 'T']) ==> !taken && c2 == c
        }),
{
    assert(token.len() > 0 && token[0] != '+' ==> unsigned_digits(token) == token);
}

} // verus!
