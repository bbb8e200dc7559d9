use vstd::prelude::*;

use crate::answer::{
    answer_record, convert_to_vec, data_fits, is_cname_or_ns, record_data_fits, write_buffer,
};
use crate::register::{
    mx_listing, mx_registers_for, register_views, search_register, search_result,
    Register, RegisterView, Registry,
};
use crate::text::str_eq;

verus! {

/// How a query was answered: the length that the message has reached, the
/// number of answer records written, and the response code to send.
#[derive(Clone, Copy, PartialEq, Eq, Structural, Debug)]
pub struct Answer {
    pub length: u16,
    pub responses: u16,
    pub error: u8,
}

/// The answer record that a stored record is written as.
pub open spec fn written_record(r: RegisterView, priority: u16) -> Seq<u8> {
    answer_record(r.question, r.ttl, r.mode, r.register_type, r.answer, priority)
}

/// Writing record `r` after the first `len` bytes of the message (which
/// starts 11 bytes into the buffer): the buffer and the new length, or
/// `None` where the record does not fit, the buffer or the length's 16 bits.
pub open spec fn place(buf: Seq<u8>, len: u16, r: RegisterView, priority: u16) -> Option<
    (Seq<u8>, u16),
> {
    let off = 11 + len;
    let rec = written_record(r, priority);
    if off > u16::MAX || !record_data_fits(r.register_type, r.answer) || off + rec.len()
        > buf.len() || len + ((rec.len() as u16) as int) > u16::MAX {
        None
    } else {
        Some((buf.take(off) + rec + buf.skip(off + rec.len()), (len + (rec.len() as u16)) as u16))
    }
}

/// Writing the MX records `rs` one after the other.
pub open spec fn place_all(buf: Seq<u8>, len: u16, rs: Seq<RegisterView>) -> Option<
    (Seq<u8>, u16),
>
    decreases rs.len(),
{
    if rs.len() == 0 {
        Some((buf, len))
    } else {
        match place_all(buf, len, rs.drop_last()) {
            None => None,
            Some(p) => place(p.0, p.1, rs.last(), rs.last().order),
        }
    }
}

/// The query type that follows the question name in the buffer, or `None`
/// where it lies past the buffer or the length's 16 bits.
pub open spec fn query_type(buf: Seq<u8>, len: u16) -> Option<u16> {
    let off = 9 + len;
    if off > u16::MAX || off + 1 >= buf.len() {
        None
    } else {
        Some((buf[off] as u16 * 256 + buf[off + 1] as u16) as u16)
    }
}

/// The outcome of answering, given the MX records of the name in the order
/// they are written, the record that the name's lookup gives, and the record
/// that the lookup of its target gives: MX records where the name has any;
/// else the record of the name and, for an alias or a name server, the
/// record of its target (code 2 where that is missing); code 3 where the
/// name is unknown. `None` where a write does not fit.
pub open spec fn answer_outcome(
    buf: Seq<u8>,
    len: u16,
    mxs: Seq<RegisterView>,
    first: Option<RegisterView>,
    second: Option<RegisterView>,
) -> Option<(Seq<u8>, Answer)> {
    if mxs.len() > 0 {
        if mxs.len() > u16::MAX {
            None
        } else {
            match place_all(buf, len, mxs) {
                None => None,
                Some(p) => Some((p.0, Answer { length: p.1, responses: mxs.len() as u16, error: 0 })),
            }
        }
    } else if query_type(buf, len) is None {
        None
    } else {
        match first {
            None => Some((buf, Answer { length: len, responses: 0, error: 3 })),
            Some(f) => match place(buf, len, f, 0) {
                None => None,
                Some(p1) => if is_cname_or_ns(f.register_type) {
                    match second {
                        Some(s) => match place(p1.0, p1.1, s, 0) {
                            None => None,
                            Some(p2) => Some(
                                (p2.0, Answer { length: p2.1, responses: 2, error: 0 }),
                            ),
                        },
                        None => Some((p1.0, Answer { length: p1.1, responses: 1, error: 2 })),
                    }
                } else {
                    Some((p1.0, Answer { length: p1.1, responses: 1, error: 0 }))
                },
            },
        }
    }
}

/// Whether the lookups `mxs`, `first` and `second` are ones the registry
/// may give for `domain`, and answering with them gives `outcome` with the
/// buffer ending as `after`.
pub open spec fn answer_matches(
    recs: Map<(Seq<char>, Seq<char>), RegisterView>,
    mx: Map<(Seq<char>, u16), RegisterView>,
    domain: Seq<char>,
    before: Seq<u8>,
    after: Seq<u8>,
    len: u16,
    outcome: Option<Answer>,
    mxs: Seq<RegisterView>,
    first: Option<RegisterView>,
    second: Option<RegisterView>,
) -> bool {
    &&& mx_listing(mx, domain, mxs)
    &&& (mxs.len() == 0 && query_type(before, len) is Some) ==> search_result(
        recs,
        domain,
        query_type(before, len)->0,
        first,
    )
    &&& first matches Some(f) ==> (is_cname_or_ns(f.register_type) && place(before, len, f, 0)
        is Some ==> search_result(
        recs,
        f.answer,
        1,
        second,
    ))
    &&& match outcome {
        Some(a) => answer_outcome(before, len, mxs, first, second) == Some((after, a)),
        None => answer_outcome(before, len, mxs, first, second) is None,
    }
}

/// Writes `register` after the first `len` bytes of the message.
fn place_record(buffer: &mut [u8], len: u16, register: &Register, priority: u16) -> (r: Option<
    u16,
>)
    ensures
        match r {
            Some(l) => place(old(buffer)@, len, register@, priority) == Some((final(buffer)@, l)),
            None => place(old(buffer)@, len, register@, priority) is None,
        },
{
    if len > 65524 {
        return None;
    }
    let off: u16 = 11 + len;
    if !data_fits(register.register_type.as_str(), register.answer.as_str()) {
        return None;
    }
    let rec = convert_to_vec(
        register.question.as_str(),
        register.ttl,
        register.mode.as_str(),
        register.register_type.as_str(),
        register.answer.as_str(),
        priority,
    );
    let n = rec.len();
    if n > buffer.len() || off as usize > buffer.len() - n {
        return None;
    }
    let long: u16 = #[verifier::truncate] (n as u16);
    if long > 65535 - len {
        return None;
    }
    let written = write_buffer(
        buffer,
        off as usize,
        register.question.as_str(),
        register.ttl,
        register.mode.as_str(),
        register.register_type.as_str(),
        register.answer.as_str(),
        priority,
    );
    assert(written == long);
    Some(len + long)
}

/// Writes the MX records `mx` one after the other.
fn answer_with_mx(buffer: &mut [u8], question_len: u16, mx: &Vec<Register>) -> (r: Option<Answer>)
    requires
        mx@.len() > 0,
    ensures
        ({
            let none_found: Option<RegisterView> = None;
            match r {
                Some(a) => answer_outcome(
                    old(buffer)@,
                    question_len,
                    register_views(mx@),
                    none_found,
                    none_found,
                ) == Some((final(buffer)@, a)),
                None => answer_outcome(
                    old(buffer)@,
                    question_len,
                    register_views(mx@),
                    none_found,
                    none_found,
                ) is None,
            }
        }),
{
    let ghost mxs = register_views(mx@);
    if mx.len() > 65535 {
        return None;
    }
    let mut len = question_len;
    let mut i: usize = 0;
    while i < mx.len()
        invariant
            mxs == register_views(mx@),
            mx@.len() <= 65535,
            i <= mx@.len(),
            place_all(old(buffer)@, question_len, mxs.take(i as int)) == Some((buffer@, len)),
        decreases mx@.len() - i,
    {
        assert(mxs.take(i + 1).drop_last() =~= mxs.take(i as int));
        assert(mxs.take(i + 1).last() == mx@[i as int]@);
        match place_record(buffer, len, &mx[i], mx[i].order) {
            Some(l) => {
                len = l;
            },
            None => {
                proof {
                    lemma_place_all_stays_none(old(buffer)@, question_len, mxs, i as int + 1);
                    assert(mxs.take(mxs.len() as int) =~= mxs);
                }
                return None;
            },
        }
        i = i + 1;
    }
    assert(mxs.take(mx@.len() as int) =~= mxs);
    Some(Answer { length: len, responses: mx.len() as u16, error: 0 })
}

/// Answers a query for a name that has no MX records.
fn answer_by_lookup(registry: &Registry, buffer: &mut [u8], question_len: u16, domain: &str) -> (r:
    Option<Answer>)
    requires
        registry.wf(),
        mx_listing(registry@.mx, domain@, Seq::<RegisterView>::empty()),
    ensures
        exists|first: Option<RegisterView>, second: Option<RegisterView>|
            #[trigger] answer_matches(
                registry@.records,
                registry@.mx,
                domain@,
                old(buffer)@,
                final(buffer)@,
                question_len,
                r,
                Seq::<RegisterView>::empty(),
                first,
                second,
            ),
{
    let ghost mxs = Seq::<RegisterView>::empty();
    let ghost none_found: Option<RegisterView> = None;
    if question_len > 65526 || 9 + question_len as usize + 1 >= buffer.len() {
        assert(answer_matches(registry@.records, registry@.mx, domain@, old(buffer)@, buffer@,
            question_len, None, mxs, none_found, none_found));
        return None;
    }
    let offset = 9 + question_len as usize;
    let type_code: u16 = buffer[offset] as u16 * 256 + buffer[offset + 1] as u16;
    assert(query_type(old(buffer)@, question_len) == Some(type_code));
    let some_reg = match search_register(registry, domain, type_code) {
        Some(reg) => reg,
        None => {
            let a = Answer { length: question_len, responses: 0, error: 3 };
            assert(answer_matches(registry@.records, registry@.mx, domain@, old(buffer)@, buffer@,
                question_len, Some(a), mxs, none_found, none_found));
            return Some(a);
        },
    };
    let ghost first = Some(some_reg@);
    let len = match place_record(buffer, question_len, &some_reg, 0) {
        Some(l) => l,
        None => {
            assert(answer_matches(registry@.records, registry@.mx, domain@, old(buffer)@, buffer@,
                question_len, None, mxs, first, none_found));
            return None;
        },
    };
    proof {
        reveal_strlit("CNAME");
        reveal_strlit("NS");
        assert("CNAME"@ =~= seq!['C', 'N', 'A', 'M', 'E']);
        assert("NS"@ =~= seq!['N', 'S']);
    }
    if str_eq(some_reg.register_type.as_str(), "CNAME") || str_eq(
        some_reg.register_type.as_str(),
        "NS",
    ) {
        match search_register(registry, some_reg.answer.as_str(), 1) {
            Some(other) => {
                let ghost second = Some(other@);
                match place_record(buffer, len, &other, 0) {
                    Some(l2) => {
                        let a = Answer { length: l2, responses: 2, error: 0 };
                        assert(answer_matches(registry@.records, registry@.mx, domain@, old(
                            buffer,
                        )@, buffer@, question_len, Some(a), mxs, first, second));
                        return Some(a);
                    },
                    None => {
                        assert(answer_matches(registry@.records, registry@.mx, domain@, old(
                            buffer,
                        )@, buffer@, question_len, None, mxs, first, second));
                        return None;
                    },
                }
            },
            None => {
                let a = Answer { length: len, responses: 1, error: 2 };
                assert(answer_matches(registry@.records, registry@.mx, domain@, old(buffer)@,
                    buffer@, question_len, Some(a), mxs, first, none_found));
                return Some(a);
            },
        }
    }
    let a = Answer { length: len, responses: 1, error: 0 };
    assert(answer_matches(registry@.records, registry@.mx, domain@, old(buffer)@, buffer@,
        question_len, Some(a), mxs, first, none_found));
    Some(a)
}

/// Answers a query for `domain` whose question takes `question_len` bytes
/// of the message in `buffer`: writes the answer records after it and says
/// how far the message reaches, how many records it holds and which
/// response code goes with it. `None` where a write would not fit.
pub fn answer_query(registry: &Registry, buffer: &mut [u8], question_len: u16, domain: &str) -> (r:
    Option<Answer>)
    requires
        registry.wf(),
    ensures
        exists|mxs: Seq<RegisterView>, first: Option<RegisterView>, second: Option<RegisterView>|
            #[trigger] answer_matches(
                registry@.records,
                registry@.mx,
                domain@,
                old(buffer)@,
                final(buffer)@,
                question_len,
                r,
                mxs,
                first,
                second,
            ),
{
    let mx = mx_registers_for(registry, domain);
    let ghost mxs = register_views(mx@);
    let ghost none_found: Option<RegisterView> = None;
    if mx.len() > 0 {
        let r = answer_with_mx(buffer, question_len, &mx);
        assert(answer_matches(registry@.records, registry@.mx, domain@, old(buffer)@, buffer@,
            question_len, r, mxs, none_found, none_found));
        return r;
    }
    assert(mxs =~= Seq::<RegisterView>::empty());
    answer_by_lookup(registry, buffer, question_len, domain)
}

/// Once a write fails, writing more records fails too.
proof fn lemma_place_all_stays_none(buf: Seq<u8>, len: u16, rs: Seq<RegisterView>, k: int)
    requires
        0 <= k <= rs.len(),
        place_all(buf, len, rs.take(k)) is None,
    ensures
        place_all(buf, len, rs.take(rs.len() as int)) is None,
    decreases rs.len() - k,
{
    if k < rs.len() {
        assert(rs.take(k + 1).drop_last() =~= rs.take(k));
        lemma_place_all_stays_none(buf, len, rs, k + 1);
    }
}

} // verus!
