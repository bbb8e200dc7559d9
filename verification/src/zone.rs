use vstd::prelude::*;

use crate::register::{
    mx_key, record_key, Register, RegisterView, Registry, RegistryView,
};
use crate::text::{chars_of, parse_unsigned, parse_unsigned_chars, str_eq, string_views};
use crate::validate::{valid_domain, valid_ip, validate_domain, validate_ip};

verus! {

// ---------------------------------------------------------------------------
// Words of the zone file language
// ---------------------------------------------------------------------------

pub open spec fn kw_a() -> Seq<char> {
    seq!['A']
}

pub open spec fn kw_cname() -> Seq<char> {
    seq!['C', 'N', 'A', 'M', 'E']
}

pub open spec fn kw_ns() -> Seq<char> {
    seq!['N', 'S']
}

pub open spec fn kw_mx() -> Seq<char> {
    seq!['M', 'X']
}

pub open spec fn kw_txt() -> Seq<char> {
    seq!['T', 'X', 'T']
}

pub open spec fn kw_in() -> Seq<char> {
    seq!['I', 'N']
}

pub open spec fn kw_origin() -> Seq<char> {
    seq!['$', 'O', 'R', 'I', 'G', 'I', 'N']
}

pub open spec fn kw_ttl() -> Seq<char> {
    seq!['$', 'T', 'T', 'L']
}

pub open spec fn kw_at() -> Seq<char> {
    seq!['@']
}

/// A word that names the type of the record that follows.
pub open spec fn is_record_word(t: Seq<char>) -> bool {
    t == kw_a() || t == kw_cname() || t == kw_mx() || t == kw_txt() || t == kw_ns()
}

/// A word of a record type that the server does not keep.
pub open spec fn is_skipped_word(t: Seq<char>) -> bool {
    t == seq!['S', 'O', 'A'] || t == seq!['A', 'A', 'A', 'A'] || t == seq!['P', 'T', 'R'] || t
        == seq!['C', 'A', 'A'] || t == seq!['S', 'R', 'V']
}

/// A word that names a class.
pub open spec fn is_class_word(t: Seq<char>) -> bool {
    t == kw_in() || t == seq!['H', 'S'] || t == seq!['C', 'H']
}

// ---------------------------------------------------------------------------
// The reading context
// ---------------------------------------------------------------------------

/// What has been read of the record under way.
pub struct Context {
    pub current_origin: String,
    pub current_domain: String,
    pub current_ip: String,
    pub current_ttl: u32,
    pub last_record: String,
    pub inside_parentheses: bool,
    pub mx_priority: u16,
    pub machine_mode: String,
}

pub struct ContextView {
    pub current_origin: Seq<char>,
    pub current_domain: Seq<char>,
    pub current_ip: Seq<char>,
    pub current_ttl: u32,
    pub last_record: Seq<char>,
    pub inside_parentheses: bool,
    pub mx_priority: u16,
    pub machine_mode: Seq<char>,
}

impl View for Context {
    type V = ContextView;

    open spec fn view(&self) -> ContextView {
        ContextView {
            current_origin: self.current_origin@,
            current_domain: self.current_domain@,
            current_ip: self.current_ip@,
            current_ttl: self.current_ttl,
            last_record: self.last_record@,
            inside_parentheses: self.inside_parentheses,
            mx_priority: self.mx_priority,
            machine_mode: self.machine_mode@,
        }
    }
}

impl Clone for Context {
    fn clone(&self) -> (r: Self)
        ensures
            r == *self,
    {
        Context {
            current_origin: self.current_origin.clone(),
            current_domain: self.current_domain.clone(),
            current_ip: self.current_ip.clone(),
            current_ttl: self.current_ttl,
            last_record: self.last_record.clone(),
            inside_parentheses: self.inside_parentheses,
            mx_priority: self.mx_priority,
            machine_mode: self.machine_mode.clone(),
        }
    }
}

/// The context before the first word of the zones.
pub open spec fn initial_context() -> ContextView {
    ContextView {
        current_origin: Seq::empty(),
        current_domain: Seq::empty(),
        current_ip: Seq::empty(),
        current_ttl: 0,
        last_record: Seq::empty(),
        inside_parentheses: false,
        mx_priority: 0,
        machine_mode: Seq::empty(),
    }
}

impl Context {
    pub fn new() -> (r: Context)
        ensures
            r@ == initial_context(),
    {
        Context {
            current_origin: String::new(),
            current_domain: String::new(),
            current_ip: String::new(),
            current_ttl: 0,
            last_record: String::new(),
            inside_parentheses: false,
            mx_priority: 0,
            machine_mode: String::new(),
        }
    }
}

// ---------------------------------------------------------------------------
// One value after a directive or record type
// ---------------------------------------------------------------------------

/// How the word `token` that follows the directive or record type in
/// `c.last_record` changes the context, and whether the word was taken.
pub open spec fn manage_step(token: Seq<char>, c: ContextView) -> (ContextView, bool) {
    let cleared = ContextView { last_record: Seq::empty(), ..c };
    let lr = c.last_record;
    if lr == kw_origin() {
        (
            if valid_domain(token) {
                ContextView { current_origin: token, ..cleared }
            } else {
                cleared
            },
            true,
        )
    } else if lr == kw_ttl() {
        match parse_unsigned(token, u32::MAX as nat) {
            Some(v) => (ContextView { current_ttl: v as u32, ..cleared }, true),
            None => (cleared, false),
        }
    } else if lr == kw_a() {
        (
            if c.current_origin.len() > 0 && valid_ip(token) {
                ContextView { current_ip: token, ..cleared }
            } else {
                cleared
            },
            true,
        )
    } else if lr == kw_cname() || lr == kw_ns() {
        (
            if c.current_origin.len() > 0 && valid_domain(token) {
                ContextView { current_domain: token, ..cleared }
            } else {
                cleared
            },
            true,
        )
    } else if lr == kw_mx() {
        if c.mx_priority > 0 {
            (
                if valid_domain(token) {
                    ContextView { current_domain: token, ..cleared }
                } else {
                    cleared
                },
                true,
            )
        } else {
            match parse_unsigned(token, u16::MAX as nat) {
                Some(v) => (ContextView { mx_priority: v as u16, ..c }, true),
                None => (c, false),
            }
        }
    } else if lr == kw_txt() {
        (
            if c.current_origin.len() > 0 {
                ContextView { current_domain: token, ..cleared }
            } else {
                cleared
            },
            true,
        )
    } else {
        (c, false)
    }
}

/// Takes the word that follows a directive or record type into the context;
/// false where the word was not taken.
pub fn manage_register(token: String, context: &mut Context) -> (r: bool)
    ensures
        (final(context)@, r) == manage_step(token@, old(context)@),
{
    proof {
        reveal_strlit("$ORIGIN");
        reveal_strlit("$TTL");
        reveal_strlit("A");
        reveal_strlit("CNAME");
        reveal_strlit("NS");
        reveal_strlit("MX");
        reveal_strlit("TXT");
        assert("$ORIGIN"@ =~= kw_origin());
        assert("$TTL"@ =~= kw_ttl());
        assert("A"@ =~= kw_a());
        assert("CNAME"@ =~= kw_cname());
        assert("NS"@ =~= kw_ns());
        assert("MX"@ =~= kw_mx());
        assert("TXT"@ =~= kw_txt());
    }
    let lr = context.last_record.as_str();
    if str_eq(lr, "$ORIGIN") {
        context.last_record = String::new();
        if validate_domain(token.clone()) {
            context.current_origin = token;
        }
    } else if str_eq(lr, "$TTL") {
        context.last_record = String::new();
        let chars = chars_of(token.as_str());
        match parse_unsigned_chars(chars.as_slice(), 4294967295) {
            Some(v) => {
                context.current_ttl = v as u32;
            },
            None => {
                return false;
            },
        }
    } else if str_eq(lr, "A") {
        context.last_record = String::new();
        if context.current_origin.as_str().as_bytes().len() > 0 && validate_ip(token.clone()) {
            context.current_ip = token;
        }
    } else if str_eq(lr, "CNAME") || str_eq(lr, "NS") {
        context.last_record = String::new();
        if context.current_origin.as_str().as_bytes().len() > 0 && validate_domain(
            token.clone(),
        ) {
            context.current_domain = token;
        }
    } else if str_eq(lr, "MX") {
        if context.mx_priority > 0 {
            if validate_domain(token.clone()) {
                context.current_domain = token;
            }
            context.last_record = String::new();
        } else {
            let chars = chars_of(token.as_str());
            match parse_unsigned_chars(chars.as_slice(), 65535) {
                Some(v) => {
                    context.mx_priority = v as u16;
                },
                None => {
                    return false;
                },
            }
        }
    } else if str_eq(lr, "TXT") {
        context.last_record = String::new();
        if context.current_origin.as_str().as_bytes().len() > 0 {
            context.current_domain = token;
        }
    } else {
        return false;
    }
    true
}

// ---------------------------------------------------------------------------
// A record read to its end
// ---------------------------------------------------------------------------

/// The registry with `r` filed among the records of every type but MX.
pub open spec fn with_record(reg: RegistryView, r: RegisterView) -> RegistryView {
    RegistryView { records: reg.records.insert(record_key(r), r), ..reg }
}

/// The registry with `r` filed among the MX records.
pub open spec fn with_mx(reg: RegistryView, r: RegisterView) -> RegistryView {
    RegistryView { mx: reg.mx.insert(mx_key(r), r), ..reg }
}

/// The record of type `record` that the context holds, filed into the
/// registry where the context holds all it needs; and whether it was.
pub open spec fn complete_step(record: Seq<char>, c: ContextView, reg: RegistryView) -> (
    RegistryView,
    bool,
) {
    let mode = if c.machine_mode.len() == 0 {
        kw_in()
    } else {
        c.machine_mode
    };
    if record == kw_a() {
        if c.current_origin.len() > 0 && c.current_ip.len() > 0 {
            (
                with_record(
                    reg,
                    RegisterView {
                        question: c.current_origin,
                        register_type: kw_a(),
                        mode: mode,
                        answer: c.current_ip,
                        order: 0,
                        ttl: c.current_ttl,
                    },
                ),
                true,
            )
        } else {
            (reg, false)
        }
    } else if record == kw_cname() || record == kw_ns() {
        if c.current_domain.len() > 0 && c.current_origin.len() > 0 {
            (
                with_record(
                    reg,
                    RegisterView {
                        question: c.current_origin,
                        register_type: record,
                        mode: mode,
                        answer: c.current_domain,
                        order: 0,
                        ttl: c.current_ttl,
                    },
                ),
                true,
            )
        } else {
            (reg, false)
        }
    } else if record == kw_mx() {
        if c.current_origin.len() > 0 && c.mx_priority > 0 && c.current_domain.len() > 0 {
            (
                with_mx(
                    reg,
                    RegisterView {
                        question: c.current_origin,
                        register_type: kw_mx(),
                        mode: kw_in(),
                        answer: c.current_domain,
                        order: c.mx_priority,
                        ttl: c.current_ttl,
                    },
                ),
                true,
            )
        } else {
            (reg, false)
        }
    } else if record == kw_txt() {
        if c.current_domain.len() > 0 {
            (
                with_record(
                    reg,
                    RegisterView {
                        question: c.current_origin,
                        register_type: kw_txt(),
                        mode: mode,
                        answer: c.current_domain,
                        order: 0,
                        ttl: c.current_ttl,
                    },
                ),
                true,
            )
        } else {
            (reg, false)
        }
    } else {
        (reg, false)
    }
}

fn has_text(s: &String) -> (r: bool)
    ensures
        r == (s@.len() > 0),
{
    s.as_str().as_bytes().len() > 0
}

/// Files the record of type `record` that the context holds; false where
/// the context lacks something the record needs.
pub fn manage_complete_register(record: String, context: Context, registry: &mut Registry) -> (r:
    bool)
    requires
        old(registry).wf(),
    ensures
        final(registry).wf(),
        (final(registry)@, r) == complete_step(record@, context@, old(registry)@),
{
    proof {
        reveal_strlit("IN");
        reveal_strlit("A");
        reveal_strlit("CNAME");
        reveal_strlit("NS");
        reveal_strlit("MX");
        reveal_strlit("TXT");
        assert("IN"@ =~= kw_in());
        assert("A"@ =~= kw_a());
        assert("CNAME"@ =~= kw_cname());
        assert("NS"@ =~= kw_ns());
        assert("MX"@ =~= kw_mx());
        assert("TXT"@ =~= kw_txt());
    }
    let mode: String = if has_text(&context.machine_mode) {
        context.machine_mode.clone()
    } else {
        String::from_str("IN")
    };
    let kind = record.as_str();
    if str_eq(kind, "A") {
        if has_text(&context.current_origin) && has_text(&context.current_ip) {
            let new_register = Register {
                question: context.current_origin.clone(),
                register_type: String::from_str("A"),
                mode: mode,
                answer: context.current_ip.clone(),
                order: 0,
                ttl: context.current_ttl,
            };
            registry.insert(new_register);
            assert(registry@ =~= complete_step(record@, context@, old(registry)@).0);
            return true;
        }
    } else if str_eq(kind, "CNAME") || str_eq(kind, "NS") {
        if has_text(&context.current_domain) && has_text(&context.current_origin) {
            let new_register = Register {
                question: context.current_origin.clone(),
                register_type: record.clone(),
                mode: mode,
                answer: context.current_domain.clone(),
                order: 0,
                ttl: context.current_ttl,
            };
            registry.insert(new_register);
            assert(registry@ =~= complete_step(record@, context@, old(registry)@).0);
            return true;
        }
    } else if str_eq(kind, "MX") {
        if has_text(&context.current_origin) && context.mx_priority > 0 && has_text(
            &context.current_domain,
        ) {
            let new_register = Register {
                question: context.current_origin.clone(),
                register_type: String::from_str("MX"),
                mode: String::from_str("IN"),
                answer: context.current_domain.clone(),
                order: context.mx_priority,
                ttl: context.current_ttl,
            };
            registry.insert_mx(new_register);
            assert(registry@ =~= complete_step(record@, context@, old(registry)@).0);
            return true;
        }
    } else if str_eq(kind, "TXT") {
        if has_text(&context.current_domain) {
            let new_register = Register {
                question: context.current_origin.clone(),
                register_type: String::from_str("TXT"),
                mode: mode,
                answer: context.current_domain.clone(),
                order: 0,
                ttl: context.current_ttl,
            };
            registry.insert(new_register);
            assert(registry@ =~= complete_step(record@, context@, old(registry)@).0);
            return true;
        }
    } else {
        return false;
    }
    false
}

// ---------------------------------------------------------------------------
// Reading the words of the zones
// ---------------------------------------------------------------------------

/// The reader's state: what it holds of the record under way, and the
/// records filed so far.
pub type LoadState = (ContextView, RegistryView);

/// How one word of the zones changes the reader's state.
pub open spec fn token_step(s: LoadState, t: Seq<char>) -> LoadState {
    let c = s.0;
    let reg = s.1;
    if t == seq!['('] {
        (ContextView { inside_parentheses: true, ..c }, reg)
    } else if t == seq![')'] {
        (ContextView { inside_parentheses: false, ..c }, reg)
    } else if is_record_word(t) {
        (ContextView { last_record: t, ..c }, reg)
    } else if is_skipped_word(t) {
        s
    } else if is_class_word(t) {
        (ContextView { machine_mode: t, ..c }, reg)
    } else if (t.len() > 0 && t[0] == '$') || t == kw_at() {
        (ContextView { last_record: t, ..c }, reg)
    } else if c.last_record.len() == 0 && valid_domain(t) {
        (ContextView { current_origin: t, ..c }, reg)
    } else if c.last_record == kw_at() || c.last_record.len() == 0 {
        s
    } else {
        let (c2, taken) = manage_step(t, c);
        if !taken {
            (c2, reg)
        } else {
            let (reg2, complete) = complete_step(c.last_record, c2, reg);
            if complete {
                (
                    ContextView {
                        machine_mode: Seq::empty(),
                        current_domain: Seq::empty(),
                        current_ip: Seq::empty(),
                        mx_priority: 0,
                        ..c2
                    },
                    reg2,
                )
            } else {
                (c2, reg2)
            }
        }
    }
}

/// The reader's state after the words `tokens`, from `start`.
pub open spec fn load_state(tokens: Seq<Seq<char>>, start: LoadState) -> LoadState
    decreases tokens.len(),
{
    if tokens.len() == 0 {
        start
    } else {
        token_step(load_state(tokens.drop_last(), start), tokens.last())
    }
}

fn is_one_of(t: &str, a: &str, b: &str, c: &str, d: &str, e: &str) -> (r: bool)
    ensures
        r == (t@ == a@ || t@ == b@ || t@ == c@ || t@ == d@ || t@ == e@),
{
    str_eq(t, a) || str_eq(t, b) || str_eq(t, c) || str_eq(t, d) || str_eq(t, e)
}

/// Reads one word of the zones.
fn process_token(token: &String, context: &mut Context, registry: &mut Registry)
    requires
        old(registry).wf(),
    ensures
        final(registry).wf(),
        (final(context)@, final(registry)@) == token_step(
            (old(context)@, old(registry)@),
            token@,
        ),
{
    proof {
        reveal_strlit("(");
        reveal_strlit(")");
        reveal_strlit("A");
        reveal_strlit("CNAME");
        reveal_strlit("MX");
        reveal_strlit("TXT");
        reveal_strlit("NS");
        reveal_strlit("SOA");
        reveal_strlit("AAAA");
        reveal_strlit("PTR");
        reveal_strlit("CAA");
        reveal_strlit("SRV");
        reveal_strlit("IN");
        reveal_strlit("HS");
        reveal_strlit("CH");
        reveal_strlit("@");
        assert("("@ =~= seq!['(']);
        assert(")"@ =~= seq![')']);
        assert("A"@ =~= kw_a());
        assert("CNAME"@ =~= kw_cname());
        assert("MX"@ =~= kw_mx());
        assert("TXT"@ =~= kw_txt());
        assert("NS"@ =~= kw_ns());
        assert("SOA"@ =~= seq!['S', 'O', 'A']);
        assert("AAAA"@ =~= seq!['A', 'A', 'A', 'A']);
        assert("PTR"@ =~= seq!['P', 'T', 'R']);
        assert("CAA"@ =~= seq!['C', 'A', 'A']);
        assert("SRV"@ =~= seq!['S', 'R', 'V']);
        assert("IN"@ =~= kw_in());
        assert("HS"@ =~= seq!['H', 'S']);
        assert("CH"@ =~= seq!['C', 'H']);
        assert("@"@ =~= kw_at());
    }
    let t = token.as_str();
    if str_eq(t, "(") {
        context.inside_parentheses = true;
        return;
    }
    if str_eq(t, ")") {
        context.inside_parentheses = false;
        return;
    }
    if is_one_of(t, "A", "CNAME", "MX", "TXT", "NS") {
        context.last_record = token.clone();
        return;
    }
    if is_one_of(t, "SOA", "AAAA", "PTR", "CAA", "SRV") {
        return;
    }
    if str_eq(t, "IN") || str_eq(t, "HS") || str_eq(t, "CH") {
        context.machine_mode = token.clone();
        return;
    }
    let chars = chars_of(t);
    if (chars.len() > 0 && chars[0] == '$') || str_eq(t, "@") {
        context.last_record = token.clone();
        return;
    }
    let last_empty = context.last_record.as_str().as_bytes().len() == 0;
    if last_empty && validate_domain(token.clone()) {
        context.current_origin = token.clone();
        return;
    }
    if last_empty || str_eq(context.last_record.as_str(), "@") {
        return;
    }
    let last_record = context.last_record.clone();
    let taken = manage_register(token.clone(), context);
    if !taken {
        return;
    }
    let complete = manage_complete_register(last_record, context.clone(), registry);
    if complete {
        context.machine_mode = String::new();
        context.current_domain = String::new();
        context.current_ip = String::new();
        context.mx_priority = 0;
    }
}

/// Reads the words of the zones into `registry`; false where a parenthesis
/// is left open at the end.
pub fn load_tokens(registry: &mut Registry, tokens: &Vec<String>) -> (balanced: bool)
    requires
        old(registry).wf(),
    ensures
        final(registry).wf(),
        final(registry)@ == load_state(string_views(tokens@), (initial_context(), old(registry)@)).1,
        balanced == !load_state(
            string_views(tokens@),
            (initial_context(), old(registry)@),
        ).0.inside_parentheses,
{
    let ghost words = string_views(tokens@);
    let ghost start = (initial_context(), old(registry)@);
    let mut context = Context::new();
    let n = tokens.len();
    let mut i: usize = 0;
    while i < n
        invariant
            n == tokens@.len(),
            words == string_views(tokens@),
            start == (initial_context(), old(registry)@),
            i <= n,
            registry.wf(),
            (context@, registry@) == load_state(words.take(i as int), start),
        decreases n - i,
    {
        assert(words.take(i + 1).drop_last() =~= words.take(i as int));
        assert(words.take(i + 1).last() == tokens@[i as int]@);
        process_token(&tokens[i], &mut context, registry);
        i = i + 1;
    }
    assert(words.take(n as int) =~= words);
    !context.inside_parentheses
}

} // verus!
