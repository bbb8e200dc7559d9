use vstd::prelude::*;

use crate::text::str_eq;

verus! {

/// A resource record as the server holds it.
pub struct Register {
    pub question: String,
    pub register_type: String,
    pub mode: String,
    pub answer: String,
    pub order: u16,
    pub ttl: u32,
}

/// The value a `Register` stands for.
pub struct RegisterView {
    pub question: Seq<char>,
    pub register_type: Seq<char>,
    pub mode: Seq<char>,
    pub answer: Seq<char>,
    pub order: u16,
    pub ttl: u32,
}

impl View for Register {
    type V = RegisterView;

    open spec fn view(&self) -> RegisterView {
        RegisterView {
            question: self.question@,
            register_type: self.register_type@,
            mode: self.mode@,
            answer: self.answer@,
            order: self.order,
            ttl: self.ttl,
        }
    }
}

impl Clone for Register {
    fn clone(&self) -> (r: Self)
        ensures
            r == *self,
    {
        Register {
            question: self.question.clone(),
            register_type: self.register_type.clone(),
            mode: self.mode.clone(),
            answer: self.answer.clone(),
            order: self.order,
            ttl: self.ttl,
        }
    }
}

/// Records of every type but MX are found by owner name and class.
pub open spec fn record_key(r: RegisterView) -> (Seq<char>, Seq<char>) {
    (r.question, r.mode)
}

/// MX records are found by owner name and preference.
pub open spec fn mx_key(r: RegisterView) -> (Seq<char>, u16) {
    (r.question, r.order)
}

pub open spec fn record_key_fn() -> spec_fn(RegisterView) -> (Seq<char>, Seq<char>) {
    |r: RegisterView| record_key(r)
}

pub open spec fn mx_key_fn() -> spec_fn(RegisterView) -> (Seq<char>, u16) {
    |r: RegisterView| mx_key(r)
}

/// The records of a list, each under its key; a later record replaces an
/// earlier one with the same key.
pub open spec fn table<K>(rs: Seq<Register>, key: spec_fn(RegisterView) -> K) -> Map<
    K,
    RegisterView,
>
    decreases rs.len(),
{
    if rs.len() == 0 {
        Map::empty()
    } else {
        table(rs.drop_last(), key).insert(key(rs.last()@), rs.last()@)
    }
}

/// No two records of the list share a key.
pub open spec fn unique_keys<K>(rs: Seq<Register>, key: spec_fn(RegisterView) -> K) -> bool {
    forall|i: int, j: int|
        0 <= i < rs.len() && 0 <= j < rs.len() && i != j ==> key(#[trigger] rs[i]@) != key(
            #[trigger] rs[j]@,
        )
}

/// A table holds exactly the keys of its list, each with its record.
pub proof fn lemma_table_contents<K>(rs: Seq<Register>, key: spec_fn(RegisterView) -> K)
    requires
        unique_keys(rs, key),
    ensures
        forall|k: K|
            table(rs, key).contains_key(k) <==> exists|i: int|
                0 <= i < rs.len() && key(#[trigger] rs[i]@) == k,
        forall|i: int| 0 <= i < rs.len() ==> table(rs, key)[key(#[trigger] rs[i]@)] == rs[i]@,
    decreases rs.len(),
{
    if rs.len() > 0 {
        let init = rs.drop_last();
        assert(unique_keys(init, key)) by {
            assert forall|i: int, j: int|
                0 <= i < init.len() && 0 <= j < init.len() && i != j implies key(
                    #[trigger] init[i]@,
                ) != key(#[trigger] init[j]@) by {
                assert(init[i] == rs[i] && init[j] == rs[j]);
            }
        }
        lemma_table_contents(init, key);
        assert forall|k: K|
            table(rs, key).contains_key(k) implies exists|i: int|
                0 <= i < rs.len() && key(#[trigger] rs[i]@) == k by {
            let last = rs.len() - 1;
            if k != key(rs[last]@) {
                assert(table(init, key).contains_key(k));
                let i = choose|i: int| 0 <= i < init.len() && key(#[trigger] init[i]@) == k;
                assert(init[i] == rs[i]);
                assert(key(rs[i]@) == k);
            } else {
                assert(key(rs[last]@) == k);
            }
        }
        assert forall|i: int| 0 <= i < rs.len() implies table(rs, key)[key(#[trigger] rs[i]@)]
            == rs[i]@ by {
            if i < rs.len() - 1 {
                assert(rs[i] == init[i]);
                assert(key(rs[i]@) != key(rs[rs.len() - 1]@));
            }
        }
        assert forall|k: K|
            (exists|i: int| 0 <= i < rs.len() && key(#[trigger] rs[i]@) == k) implies table(
                rs,
                key,
            ).contains_key(k) by {
            let i = choose|i: int| 0 <= i < rs.len() && key(#[trigger] rs[i]@) == k;
            if i < rs.len() - 1 {
                assert(rs[i] == init[i]);
            }
        }
    }
}

/// Replacing a record by one with the same key replaces it in the table.
pub proof fn lemma_table_update<K>(
    rs: Seq<Register>,
    key: spec_fn(RegisterView) -> K,
    i: int,
    r: Register,
)
    requires
        unique_keys(rs, key),
        0 <= i < rs.len(),
        key(r@) == key(rs[i]@),
    ensures
        table(rs.update(i, r), key) == table(rs, key).insert(key(r@), r@),
        unique_keys(rs.update(i, r), key),
    decreases rs.len(),
{
    let rs2 = rs.update(i, r);
    assert(unique_keys(rs2, key)) by {
        assert forall|a: int, b: int|
            0 <= a < rs2.len() && 0 <= b < rs2.len() && a != b implies key(#[trigger] rs2[a]@)
            != key(#[trigger] rs2[b]@) by {
            assert(key(rs2[a]@) == key(rs[a]@));
            assert(key(rs2[b]@) == key(rs[b]@));
        }
    }
    let init = rs.drop_last();
    if i == rs.len() - 1 {
        assert(rs2.drop_last() =~= init);
        assert(table(rs2, key) =~= table(rs, key).insert(key(r@), r@));
    } else {
        assert(rs2.drop_last() =~= init.update(i, r));
        assert(unique_keys(init, key)) by {
            assert forall|a: int, b: int|
                0 <= a < init.len() && 0 <= b < init.len() && a != b implies key(
                    #[trigger] init[a]@,
                ) != key(#[trigger] init[b]@) by {
                assert(init[a] == rs[a] && init[b] == rs[b]);
            }
        }
        lemma_table_update(init, key, i, r);
        assert(key(rs[i]@) != key(rs[rs.len() - 1]@));
        assert(rs2.last() == rs.last());
        assert(table(rs2, key) =~= table(rs, key).insert(key(r@), r@));
    }
}

/// Adding a record with a new key adds it to the table.
pub proof fn lemma_table_push<K>(rs: Seq<Register>, key: spec_fn(RegisterView) -> K, r: Register)
    requires
        unique_keys(rs, key),
        forall|i: int| 0 <= i < rs.len() ==> key(#[trigger] rs[i]@) != key(r@),
    ensures
        table(rs.push(r), key) == table(rs, key).insert(key(r@), r@),
        unique_keys(rs.push(r), key),
{
    let rs2 = rs.push(r);
    assert(rs2.drop_last() =~= rs);
    assert forall|a: int, b: int|
        0 <= a < rs2.len() && 0 <= b < rs2.len() && a != b implies key(#[trigger] rs2[a]@) != key(
        #[trigger] rs2[b]@,
    ) by {
        if a < rs.len() {
            assert(rs2[a] == rs[a]);
        }
        if b < rs.len() {
            assert(rs2[b] == rs[b]);
        }
    }
}

/// All records the server answers from.
pub struct Registry {
    records: Vec<Register>,
    mx_records: Vec<Register>,
}

/// The value a `Registry` stands for: the records of every type but MX by
/// (owner name, class), and the MX records by (owner name, preference).
pub struct RegistryView {
    pub records: Map<(Seq<char>, Seq<char>), RegisterView>,
    pub mx: Map<(Seq<char>, u16), RegisterView>,
}

impl View for Registry {
    type V = RegistryView;

    closed spec fn view(&self) -> RegistryView {
        RegistryView {
            records: table(self.records@, record_key_fn()),
            mx: table(self.mx_records@, mx_key_fn()),
        }
    }
}

/// The class that a query type number selects when looking a name up.
pub open spec fn mode_name(mode: u16) -> Seq<char> {
    if mode == 3 {
        seq!['C', 'H']
    } else if mode == 4 {
        seq!['H', 'S']
    } else {
        seq!['I', 'N']
    }
}

/// Whether `r` is one of the values of `m`.
pub open spec fn holds_record(m: Map<(Seq<char>, Seq<char>), RegisterView>, r: RegisterView) -> bool {
    m.contains_key(record_key(r)) && m[record_key(r)] == r
}

/// Whether `r` is one of the values of `m`.
pub open spec fn holds_mx(m: Map<(Seq<char>, u16), RegisterView>, r: RegisterView) -> bool {
    m.contains_key(mx_key(r)) && m[mx_key(r)] == r
}

/// Every record of the table is filed under its own key.
pub open spec fn records_filed(m: Map<(Seq<char>, Seq<char>), RegisterView>) -> bool {
    forall|k: (Seq<char>, Seq<char>)| #[trigger] m.contains_key(k) ==> record_key(m[k]) == k
}

/// Every MX record of the table is filed under its own key.
pub open spec fn mx_filed(m: Map<(Seq<char>, u16), RegisterView>) -> bool {
    forall|k: (Seq<char>, u16)| #[trigger] m.contains_key(k) ==> mx_key(m[k]) == k
}

/// The records that the server holds before any zone is read.
pub open spec fn initial_records() -> Map<(Seq<char>, Seq<char>), RegisterView> {
    let r = RegisterView {
        question: "localbase.localhost."@,
        register_type: "A"@,
        mode: "IN"@,
        answer: "0.0.0.0"@,
        order: 0,
        ttl: 86400,
    };
    Map::empty().insert(record_key(r), r)
}

/// The MX records that the server holds before any zone is read.
pub open spec fn initial_mx() -> Map<(Seq<char>, u16), RegisterView> {
    let r = RegisterView {
        question: "mail.localbase.localhost."@,
        register_type: "MX"@,
        mode: "IN"@,
        answer: "0.0.0.0"@,
        order: 1,
        ttl: 86400,
    };
    Map::empty().insert(mx_key(r), r)
}

impl Registry {
    pub closed spec fn wf(&self) -> bool {
        &&& unique_keys(self.records@, record_key_fn())
        &&& unique_keys(self.mx_records@, mx_key_fn())
    }

    /// A well-formed registry files every record under its own key.
    pub proof fn lemma_filed(&self)
        requires
            self.wf(),
        ensures
            records_filed(self@.records),
            mx_filed(self@.mx),
    {
        let rk = record_key_fn();
        let mk = mx_key_fn();
        lemma_table_contents(self.records@, rk);
        lemma_table_contents(self.mx_records@, mk);
        assert forall|k: (Seq<char>, Seq<char>)| #[trigger]
            self@.records.contains_key(k) implies record_key(self@.records[k]) == k by {
            let i = choose|i: int| 0 <= i < self.records@.len() && rk(#[trigger] self.records@[i]@) == k;
            assert(self@.records[rk(self.records@[i]@)] == self.records@[i]@);
        }
        assert forall|k: (Seq<char>, u16)| #[trigger]
            self@.mx.contains_key(k) implies mx_key(self@.mx[k]) == k by {
            let i = choose|i: int| 0 <= i < self.mx_records@.len() && mk(#[trigger] self.mx_records@[i]@) == k;
            assert(self@.mx[mk(self.mx_records@[i]@)] == self.mx_records@[i]@);
        }
    }

    /// A registry with no records at all.
    pub fn empty() -> (r: Registry)
        ensures
            r.wf(),
            r@.records == Map::<(Seq<char>, Seq<char>), RegisterView>::empty(),
            r@.mx == Map::<(Seq<char>, u16), RegisterView>::empty(),
    {
        let r = Registry { records: Vec::new(), mx_records: Vec::new() };
        assert(r@.records =~= Map::<(Seq<char>, Seq<char>), RegisterView>::empty());
        assert(r@.mx =~= Map::<(Seq<char>, u16), RegisterView>::empty());
        r
    }

    /// The registry the server starts from: one address record for
    /// `localbase.localhost.` and one MX record for
    /// `mail.localbase.localhost.`.
    pub fn new() -> (r: Registry)
        ensures
            r.wf(),
            r@.records == initial_records(),
            r@.mx == initial_mx(),
    {
        let mut registry = Registry::empty();
        registry.insert(
            Register {
                question: String::from_str("localbase.localhost."),
                register_type: String::from_str("A"),
                mode: String::from_str("IN"),
                answer: String::from_str("0.0.0.0"),
                order: 0,
                ttl: 86400,
            },
        );
        registry.insert_mx(
            Register {
                question: String::from_str("mail.localbase.localhost."),
                register_type: String::from_str("MX"),
                mode: String::from_str("IN"),
                answer: String::from_str("0.0.0.0"),
                order: 1,
                ttl: 86400,
            },
        );
        assert(registry@.records =~= initial_records());
        assert(registry@.mx =~= initial_mx());
        registry
    }

    /// Files a record under (owner name, class), replacing the one there.
    pub fn insert(&mut self, register: Register)
        requires
            old(self).wf(),
        ensures
            final(self).wf(),
            final(self)@.records == old(self)@.records.insert(record_key(register@), register@),
            final(self)@.mx == old(self)@.mx,
    {
        let ghost key = record_key_fn();
        let n = self.records.len();
        let mut i: usize = 0;
        while i < n
            invariant
                n == self.records@.len(),
                key == record_key_fn(),
                self.records@ == old(self).records@,
                self.mx_records@ == old(self).mx_records@,
                old(self).wf(),
                i <= n,
                forall|j: int| 0 <= j < i ==> key(#[trigger] self.records@[j]@) != key(register@),
            decreases n - i,
        {
            if self.records[i].question == register.question && self.records[i].mode
                == register.mode {
                proof {
                    lemma_table_update(self.records@, key, i as int, register);
                }
                self.records.set(i, register);
                return;
            }
            i = i + 1;
        }
        proof {
            lemma_table_push(self.records@, key, register);
        }
        self.records.push(register);
    }

    /// Files an MX record under (owner name, preference), replacing the one
    /// there.
    pub fn insert_mx(&mut self, register: Register)
        requires
            old(self).wf(),
        ensures
            final(self).wf(),
            final(self)@.mx == old(self)@.mx.insert(mx_key(register@), register@),
            final(self)@.records == old(self)@.records,
    {
        let ghost key = mx_key_fn();
        let n = self.mx_records.len();
        let mut i: usize = 0;
        while i < n
            invariant
                n == self.mx_records@.len(),
                key == mx_key_fn(),
                self.records@ == old(self).records@,
                self.mx_records@ == old(self).mx_records@,
                old(self).wf(),
                i <= n,
                forall|j: int| 0 <= j < i ==> key(#[trigger] self.mx_records@[j]@) != key(register@),
            decreases n - i,
        {
            if self.mx_records[i].question == register.question && self.mx_records[i].order
                == register.order {
                proof {
                    lemma_table_update(self.mx_records@, key, i as int, register);
                }
                self.mx_records.set(i, register);
                return;
            }
            i = i + 1;
        }
        proof {
            lemma_table_push(self.mx_records@, key, register);
        }
        self.mx_records.push(register);
    }
}

/// The views of a list of records.
pub open spec fn register_views(rs: Seq<Register>) -> Seq<RegisterView> {
    rs.map_values(|r: Register| r@)
}

pub open spec fn opt_view(r: Option<Register>) -> Option<RegisterView> {
    match r {
        Some(x) => Some(x@),
        None => None,
    }
}

/// What a lookup of `domain` with query type `mode` may give: where `mode`
/// is not 0 and a record is filed under the name and the class that `mode`
/// selects, that record; otherwise some record of the name, of any class,
/// or `None` where the name has none.
pub open spec fn search_result(
    recs: Map<(Seq<char>, Seq<char>), RegisterView>,
    domain: Seq<char>,
    mode: u16,
    found: Option<RegisterView>,
) -> bool {
    let key = (domain, mode_name(mode));
    if mode > 0 && recs.contains_key(key) {
        found == Some(recs[key])
    } else {
        match found {
            Some(x) => holds_record(recs, x) && x.question == domain,
            None => forall|k: (Seq<char>, Seq<char>)| #[trigger]
                recs.contains_key(k) ==> recs[k].question != domain,
        }
    }
}

/// Whether `list` names every MX record of `domain` exactly once.
pub open spec fn mx_listing(
    mx: Map<(Seq<char>, u16), RegisterView>,
    domain: Seq<char>,
    list: Seq<RegisterView>,
) -> bool {
    &&& list.no_duplicates()
    &&& forall|x: RegisterView| list.contains(x) <==> (holds_mx(mx, x) && x.question == domain)
}

/// Looks a name up. Where `mode` is not 0 and a record is filed under the
/// name and the class that `mode` selects, that record; otherwise some
/// record of the name, of any class, or `None` where the name has none.
pub fn search_register(registry: &Registry, domain: &str, mode: u16) -> (r: Option<Register>)
    requires
        registry.wf(),
    ensures
        search_result(registry@.records, domain@, mode, opt_view(r)),
{
    let ghost rs = registry.records@;
    let ghost key = record_key_fn();
    proof {
        lemma_table_contents(rs, key);
        registry.lemma_filed();
    }
    let n = registry.records.len();
    if mode > 0 {
        proof {
            reveal_strlit("IN");
            reveal_strlit("CH");
            reveal_strlit("HS");
            assert("IN"@ =~= seq!['I', 'N']);
            assert("CH"@ =~= seq!['C', 'H']);
            assert("HS"@ =~= seq!['H', 'S']);
        }
        let mode_string: &str = if mode == 3 {
            "CH"
        } else if mode == 4 {
            "HS"
        } else {
            "IN"
        };
        assert(mode_string@ == mode_name(mode));
        let mut i: usize = 0;
        while i < n
            invariant
                n == rs.len(),
                rs == registry.records@,
                key == record_key_fn(),
                registry.wf(),
                mode_string@ == mode_name(mode),
                i <= n,
                forall|j: int| 0 <= j < i ==> key(#[trigger] rs[j]@) != (domain@, mode_name(mode)),
            decreases n - i,
        {
            if str_eq(registry.records[i].question.as_str(), domain) && str_eq(
                registry.records[i].mode.as_str(),
                mode_string,
            ) {
                proof {
                    lemma_table_contents(rs, key);
                }
                assert(key(rs[i as int]@) == (domain@, mode_name(mode)));
                return Some(registry.records[i].clone());
            }
            i = i + 1;
        }
        assert(!registry@.records.contains_key((domain@, mode_name(mode))));
    }
    let mut i: usize = 0;
    while i < n
        invariant
            n == rs.len(),
            rs == registry.records@,
            key == record_key_fn(),
            registry.wf(),
            mode > 0 ==> !registry@.records.contains_key((domain@, mode_name(mode))),
            i <= n,
            forall|j: int| 0 <= j < i ==> (#[trigger] rs[j]@).question != domain@,
        decreases n - i,
    {
        if str_eq(registry.records[i].question.as_str(), domain) {
            proof {
                lemma_table_contents(rs, key);
            }
            assert(registry@.records[key(rs[i as int]@)] == rs[i as int]@);
            return Some(registry.records[i].clone());
        }
        i = i + 1;
    }
    assert forall|k: (Seq<char>, Seq<char>)| #[trigger]
        registry@.records.contains_key(k) implies registry@.records[k].question != domain@ by {
        let j = choose|j: int| 0 <= j < rs.len() && key(#[trigger] rs[j]@) == k;
        assert(registry@.records[key(rs[j]@)] == rs[j]@);
    }
    None
}

/// The MX records of a name, each once, in no stated order.
pub fn mx_registers_for(registry: &Registry, domain: &str) -> (r: Vec<Register>)
    requires
        registry.wf(),
    ensures
        mx_listing(registry@.mx, domain@, register_views(r@)),
{
    let ghost rs = registry.mx_records@;
    let ghost key = mx_key_fn();
    proof {
        lemma_table_contents(rs, key);
    }
    let mut out: Vec<Register> = Vec::new();
    let ghost mut idx: Seq<int> = Seq::empty();
    let n = registry.mx_records.len();
    let mut i: usize = 0;
    while i < n
        invariant
            n == rs.len(),
            rs == registry.mx_records@,
            key == mx_key_fn(),
            unique_keys(rs, key),
            i <= n,
            idx.len() == out@.len(),
            forall|j: int| 0 <= j < idx.len() ==> 0 <= #[trigger] idx[j] < i,
            forall|j: int, l: int| 0 <= j < l < idx.len() ==> idx[j] < idx[l],
            forall|j: int| 0 <= j < idx.len() ==> out@[j]@ == rs[#[trigger] idx[j]]@,
            forall|j: int| 0 <= j < idx.len() ==> (#[trigger] rs[idx[j]]@).question == domain@,
            forall|k: int|
                0 <= k < i && (#[trigger] rs[k]@).question == domain@ ==> idx.contains(k),
        decreases n - i,
    {
        let ghost old_idx = idx;
        if str_eq(registry.mx_records[i].question.as_str(), domain) {
            out.push(registry.mx_records[i].clone());
            proof {
                idx = idx.push(i as int);
                assert(idx[idx.len() - 1] == i);
                assert forall|k: int|
                    0 <= k < i + 1 && (#[trigger] rs[k]@).question == domain@ implies idx.contains(k) by {
                    if k < i {
                        let j = choose|j: int| 0 <= j < old_idx.len() && old_idx[j] == k;
                        assert(idx[j] == k);
                    } else {
                        assert(idx[idx.len() - 1] == k);
                    }
                }
            }
        }
        i = i + 1;
    }
    let ghost views = register_views(out@);
    assert(views.no_duplicates()) by {
        assert forall|a: int, b: int| 0 <= a < views.len() && 0 <= b < views.len() && a != b implies views[a] != views[b] by {
            assert(views[a] == rs[idx[a]]@);
            assert(views[b] == rs[idx[b]]@);
            assert(idx[a] != idx[b]);
            assert(key(rs[idx[a]]@) != key(rs[idx[b]]@));
        }
    }
    assert forall|x: RegisterView|
        views.contains(x) <==> (holds_mx(registry@.mx, x) && x.question == domain@) by {
        if views.contains(x) {
            let a = choose|a: int| 0 <= a < views.len() && views[a] == x;
            assert(views[a] == rs[idx[a]]@);
            assert(registry@.mx[key(rs[idx[a]]@)] == rs[idx[a]]@);
        }
        if holds_mx(registry@.mx, x) && x.question == domain@ {
            let k = choose|k: int| 0 <= k < rs.len() && key(#[trigger] rs[k]@) == mx_key(x);
            assert(registry@.mx[key(rs[k]@)] == rs[k]@);
            assert(rs[k]@ == x);
            assert(idx.contains(k));
            let j = choose|j: int| 0 <= j < idx.len() && idx[j] == k;
            assert(views[j] == x);
        }
    }
    out
}

} // verus!
