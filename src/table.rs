use vstd::prelude::*;

use crate::error::{Address, Error, ErrorKind};
use crate::value::{class_of, handle_of, owns_payload, slot_index, Class, Heap, Slot, Value};

verus! {

/// One name bound to one value.
pub struct Binding {
    pub name: String,
    pub value: Value,
}

/// The value of the last binding of `k` in `s`, if any.
pub open spec fn find_in(s: Seq<Binding>, k: Seq<char>) -> Option<Value>
    decreases s.len(),
{
    if s.len() == 0 {
        None
    } else if s.last().name@ == k {
        Some(s.last().value)
    } else {
        find_in(s.drop_last(), k)
    }
}

/// No two bindings share a name.
pub open spec fn names_unique(s: Seq<Binding>) -> bool {
    forall|i: int, j: int| 0 <= i < j < s.len() ==> s[i].name@ != s[j].name@
}

proof fn lemma_find_none(s: Seq<Binding>, k: Seq<char>)
    requires
        forall|i: int| 0 <= i < s.len() ==> s[i].name@ != k,
    ensures
        find_in(s, k) is None,
    decreases s.len(),
{
    if s.len() > 0 {
        lemma_find_none(s.drop_last(), k);
    }
}

proof fn lemma_find_some(s: Seq<Binding>, k: Seq<char>)
    requires
        find_in(s, k) is Some,
    ensures
        exists|i: int| 0 <= i < s.len() && s[i].name@ == k,
    decreases s.len(),
{
    if s.last().name@ != k {
        lemma_find_some(s.drop_last(), k);
        let i = choose|i: int| 0 <= i < s.len() - 1 && s.drop_last()[i].name@ == k;
        assert(s[i].name@ == k);
    }
}

proof fn lemma_find_at(s: Seq<Binding>, i: int)
    requires
        names_unique(s),
        0 <= i < s.len(),
    ensures
        find_in(s, s[i].name@) == Some(s[i].value),
    decreases s.len(),
{
    if i != s.len() - 1 {
        assert(s.drop_last()[i] == s[i]);
        lemma_find_at(s.drop_last(), i);
    }
}

/// One frame of bindings, with its two non-owning links: the dynamic parent,
/// through which assignments travel, and the lexical parent, through which
/// reads travel. Links are indices into a `Scopes` arena.
pub struct Table {
    fields: Vec<Binding>,
    dynamic_parent: Option<usize>,
    lexical_parent: Option<usize>,
}

impl View for Table {
    type V = Map<Seq<char>, Value>;

    closed spec fn view(&self) -> Map<Seq<char>, Value> {
        Map::new(|k: Seq<char>| find_in(self.fields@, k) is Some, |k: Seq<char>| find_in(self.fields@, k)->0)
    }
}

/// The message of an `AlreadyDefined` error.
pub open spec fn already_defined_message(name: Seq<char>) -> Seq<char> {
    name + " is already defined."@
}

/// The message of a `NotDefined` error.
pub open spec fn not_defined_message(name: Seq<char>) -> Seq<char> {
    name + " is not defined."@
}

/// The message of a `NotFound` error.
pub open spec fn not_found_message(name: Seq<char>) -> Seq<char> {
    name + " is not found."@
}

pub open spec fn already_defined_hint() -> Seq<char> {
    "you can rename variable."@
}

pub open spec fn not_defined_hint() -> Seq<char> {
    "you can define it, using := op."@
}

pub open spec fn not_found_hint() -> Seq<char> {
    "check variable existence, or define it, using := op."@
}

/// `e` is the error of kind `kind` raised at `address` for `name`.
pub open spec fn is_error(e: Error, kind: ErrorKind, address: Address, name: Seq<char>) -> bool {
    &&& e.kind == kind
    &&& e.address == address
    &&& e.message@ == match kind {
        ErrorKind::AlreadyDefined => already_defined_message(name),
        ErrorKind::NotDefined => not_defined_message(name),
        _ => not_found_message(name),
    }
    &&& e.hint@ == match kind {
        ErrorKind::AlreadyDefined => already_defined_hint(),
        ErrorKind::NotDefined => not_defined_hint(),
        _ => not_found_hint(),
    }
}

fn name_error(kind: ErrorKind, address: &Address, name: &String) -> (e: Error)
    requires
        kind == ErrorKind::AlreadyDefined || kind == ErrorKind::NotDefined || kind == ErrorKind::NotFound,
    ensures
        is_error(e, kind, *address, name@),
{
    let (message, hint) = match kind {
        ErrorKind::AlreadyDefined => (
            name.clone().concat(" is already defined."),
            String::from_str("you can rename variable."),
        ),
        ErrorKind::NotDefined => (
            name.clone().concat(" is not defined."),
            String::from_str("you can define it, using := op."),
        ),
        _ => (
            name.clone().concat(" is not found."),
            String::from_str("check variable existence, or define it, using := op."),
        ),
    };
    Error::new(kind, address.duplicate(), message, hint)
}

/// `v` owns a payload and is bound to some name of `m`.
pub open spec fn releasable(m: Map<Seq<char>, Value>, v: Value) -> bool {
    owns_payload(v) && exists|k: Seq<char>| m.contains_key(k) && #[trigger] m[k] == v
}

/// The slot index a value's handle names (-1 for a value with no handle).
pub open spec fn handle_index(v: Value) -> int {
    match handle_of(v) {
        Some(h) => slot_index(h),
        None => -1,
    }
}

/// Some value of `vals` names slot `i` through a free operation of the
/// slot's class.
pub open spec fn targeted(vals: Seq<Value>, slots: Seq<Slot>, i: int) -> bool {
    exists|j: int| 0 <= j < vals.len() && #[trigger] handle_index(vals[j]) == i && class_of(vals[j]) == slots[i].class
}

/// The heap after releasing each value of `vals` through the free operation
/// of its class: every live slot that one of them names in the right class
/// is released, and nothing else changes.
pub open spec fn after_release(slots: Seq<Slot>, vals: Seq<Value>) -> Seq<Slot> {
    Seq::new(
        slots.len(),
        |i: int|
            if slots[i].live && targeted(vals, slots, i) {
                Slot { live: false, ..slots[i] }
            } else {
                slots[i]
            },
    )
}

/// No two values of `s` carry the same handle.
pub open spec fn handles_distinct(s: Seq<Value>) -> bool {
    forall|a: int, b: int| 0 <= a < b < s.len() ==> handle_of(s[a]) != handle_of(s[b])
}

/// Some value of `s` carries the handle that `v` carries.
pub open spec fn covers(s: Seq<Value>, v: Value) -> bool {
    exists|m: int| 0 <= m < s.len() && handle_of(#[trigger] s[m]) == handle_of(v)
}

/// Some binding among the first `n` of `s` holds `v`.
spec fn bound_before(s: Seq<Binding>, n: int, v: Value) -> bool {
    exists|j: int| 0 <= j < n && #[trigger] s[j].value == v
}

impl Table {
    /// Every name is bound at most once.
    pub closed spec fn wf(&self) -> bool {
        names_unique(self.fields@)
    }

    pub closed spec fn spec_dynamic_parent(&self) -> Option<usize> {
        self.dynamic_parent
    }

    pub closed spec fn spec_lexical_parent(&self) -> Option<usize> {
        self.lexical_parent
    }

    /// An empty table with no parents.
    pub fn new() -> (r: Table)
        ensures
            r.wf(),
            r@ == Map::<Seq<char>, Value>::empty(),
            r.spec_dynamic_parent() is None,
            r.spec_lexical_parent() is None,
    {
        let r = Table { fields: Vec::new(), dynamic_parent: None, lexical_parent: None };
        assert(r@ =~= Map::<Seq<char>, Value>::empty());
        r
    }

    /// The position of the binding of `name`, if the table binds it.
    fn position(&self, name: &String) -> (r: Option<usize>)
        requires
            self.wf(),
        ensures
            r is Some <==> self@.contains_key(name@),
            r is Some ==> r->0 < self.fields@.len() && self.fields@[r->0 as int].name@ == name@,
    {
        let mut i: usize = 0;
        while i < self.fields.len()
            invariant
                i <= self.fields@.len(),
                names_unique(self.fields@),
                forall|j: int| 0 <= j < i ==> self.fields@[j].name@ != name@,
            decreases self.fields@.len() - i,
        {
            if self.fields[i].name == *name {
                proof {
                    lemma_find_at(self.fields@, i as int);
                }
                return Some(i);
            }
            i += 1;
        }
        proof {
            lemma_find_none(self.fields@, name@);
        }
        None
    }

    /// Whether the table itself binds `name`; parents are not consulted.
    pub fn exists_local(&self, name: &str) -> (r: bool)
        requires
            self.wf(),
        ensures
            r == self@.contains_key(name@),
    {
        let key = name.to_owned();
        self.position(&key).is_some()
    }

    /// The value the table itself binds to `name`.
    pub fn get(&self, name: &str) -> (r: Option<Value>)
        requires
            self.wf(),
        ensures
            r == (if self@.contains_key(name@) { Some(self@[name@]) } else { None::<Value> }),
    {
        let key = name.to_owned();
        match self.position(&key) {
            Some(i) => {
                proof {
                    lemma_find_at(self.fields@, i as int);
                }
                Some(self.fields[i].value)
            },
            None => None,
        }
    }

    /// Binds `name` to `value` in this table, unless the table already binds
    /// it. Parents are not consulted.
    pub fn define(&mut self, address: &Address, name: &str, value: Value) -> (r: Result<(), Error>)
        requires
            old(self).wf(),
        ensures
            final(self).wf(),
            final(self).spec_dynamic_parent() == old(self).spec_dynamic_parent(),
            final(self).spec_lexical_parent() == old(self).spec_lexical_parent(),
            r is Ok <==> !old(self)@.contains_key(name@),
            r is Ok ==> final(self)@ == old(self)@.insert(name@, value),
            r is Err ==> *final(self) == *old(self) && is_error(
                r->Err_0,
                ErrorKind::AlreadyDefined,
                *address,
                name@,
            ),
    {
        let key = name.to_owned();
        if self.position(&key).is_some() {
            return Err(name_error(ErrorKind::AlreadyDefined, address, &key));
        }
        let ghost s = self.fields@;
        proof {
            assert forall|j: int| 0 <= j < s.len() implies s[j].name@ != key@ by {
                if s[j].name@ == key@ {
                    lemma_find_at(s, j);
                }
            }
        }
        let b = Binding { name: key, value };
        self.fields.push(b);
        proof {
            let t = self.fields@;
            assert(t.drop_last() =~= s);
            assert forall|k: Seq<char>| #[trigger] find_in(t, k) == (if k == name@ { Some(value) } else { find_in(s, k) }) by {}
            assert(self@ =~= old(self)@.insert(name@, value));
        }
        Ok(())
    }

    /// Rebinds `name` to `value` in this table, if the table itself already
    /// binds it; parents are never changed.
    pub fn set_local(&mut self, address: &Address, name: &str, value: Value) -> (r: Result<(), Error>)
        requires
            old(self).wf(),
        ensures
            final(self).wf(),
            final(self).spec_dynamic_parent() == old(self).spec_dynamic_parent(),
            final(self).spec_lexical_parent() == old(self).spec_lexical_parent(),
            r is Ok <==> old(self)@.contains_key(name@),
            r is Ok ==> final(self)@ == old(self)@.insert(name@, value),
            r is Err ==> *final(self) == *old(self) && is_error(
                r->Err_0,
                ErrorKind::NotDefined,
                *address,
                name@,
            ),
    {
        let key = name.to_owned();
        let i = match self.position(&key) {
            Some(i) => i,
            None => {
                return Err(name_error(ErrorKind::NotDefined, address, &key));
            },
        };
        let ghost s = self.fields@;
        self.fields.set(i, Binding { name: key, value });
        proof {
            let t = self.fields@;
            assert forall|a: int, b: int| 0 <= a < b < t.len() implies t[a].name@ != t[b].name@ by {
                assert(t[a].name@ == s[a].name@);
                assert(t[b].name@ == s[b].name@);
            }
            assert forall|k: Seq<char>| #[trigger] find_in(t, k) == (if k == name@ { Some(value) } else { find_in(s, k) }) by {
                if k == name@ {
                    lemma_find_at(t, i as int);
                } else if find_in(s, k) is Some {
                    lemma_find_some(s, k);
                    let j = choose|j: int| 0 <= j < s.len() && s[j].name@ == k;
                    lemma_find_at(s, j);
                    lemma_find_at(t, j);
                } else {
                    assert forall|j: int| 0 <= j < t.len() implies t[j].name@ != k by {
                        if t[j].name@ == k {
                            lemma_find_at(s, j);
                        }
                    }
                    lemma_find_none(t, k);
                }
            }
            assert(self@ =~= old(self)@.insert(name@, value));
        }
        Ok(())
    }

    /// Releases the payloads this table owns: each distinct handle held by an
    /// owning value bound in it goes once through the free operation of its
    /// class (pooled for strings, general for the rest), however many names
    /// hold it. Scalars and natives are left alone. Returns the values
    /// released, in the order they were released.
    pub fn free_fields(&self, heap: &mut Heap) -> (r: Vec<Value>)
        requires
            self.wf(),
        ensures
            handles_distinct(r@),
            r@.no_duplicates(),
            forall|v: Value| r@.contains(v) ==> releasable(self@, v),
            forall|v: Value| releasable(self@, v) ==> covers(r@, v),
            final(heap)@ == after_release(old(heap)@, r@),
    {
        let mut to_free: Vec<Value> = Vec::new();
        let mut i: usize = 0;
        while i < self.fields.len()
            invariant
                i <= self.fields@.len(),
                handles_distinct(to_free@),
                forall|w: Value| #[trigger] to_free@.contains(w) ==> owns_payload(w) && bound_before(self.fields@, i as int, w),
                forall|j: int| 0 <= j < i && owns_payload(#[trigger] self.fields@[j].value) ==> covers(to_free@, self.fields@[j].value),
            decreases self.fields@.len() - i,
        {
            let v = self.fields[i].value;
            let ghost prev = to_free@;
            match v.owned_handle() {
                Some(h) => {
                    let mut seen = false;
                    let mut j: usize = 0;
                    while j < to_free.len()
                        invariant
                            j <= to_free@.len(),
                            to_free@ == prev,
                            handle_of(v) == Some(h),
                            seen <==> exists|m: int| 0 <= m < j && handle_of(#[trigger] to_free@[m]) == Some(h),
                        decreases to_free@.len() - j,
                    {
                        if to_free[j].holds_handle(h) {
                            seen = true;
                        }
                        j += 1;
                    }
                    if !seen {
                        to_free.push(v);
                        proof {
                            assert forall|a: int, b: int| 0 <= a < b < to_free@.len() implies handle_of(to_free@[a]) != handle_of(to_free@[b]) by {
                                if b == prev.len() {
                                    assert(to_free@[a] == prev[a]);
                                } else {
                                    assert(to_free@[a] == prev[a] && to_free@[b] == prev[b]);
                                }
                            }
                            assert(to_free@[prev.len() as int] == v);
                        }
                    }
                },
                None => {},
            }
            proof {
                assert forall|k: int| 0 <= k < prev.len() implies to_free@[k] == prev[k] by {}
                assert forall|w: Value| #[trigger] to_free@.contains(w) implies owns_payload(w) && bound_before(self.fields@, i + 1, w) by {
                    let m = choose|m: int| 0 <= m < to_free@.len() && to_free@[m] == w;
                    if m < prev.len() {
                        assert(prev.contains(w));
                        let j = choose|j: int| 0 <= j < i && #[trigger] self.fields@[j].value == w;
                        assert(0 <= j < i + 1 && self.fields@[j].value == w);
                    } else {
                        assert(w == v);
                        assert(self.fields@[i as int].value == w);
                    }
                }
                assert forall|j: int| 0 <= j < i + 1 && owns_payload(#[trigger] self.fields@[j].value) implies covers(to_free@, self.fields@[j].value) by {
                    if j < i {
                        let m = choose|m: int| 0 <= m < prev.len() && handle_of(prev[m]) == handle_of(self.fields@[j].value);
                        assert(handle_of(to_free@[m]) == handle_of(self.fields@[j].value));
                    } else if to_free@.len() > prev.len() {
                        assert(handle_of(to_free@[prev.len() as int]) == handle_of(v));
                    } else {
                        let m = choose|m: int| 0 <= m < prev.len() && handle_of(#[trigger] prev[m]) == handle_of(v);
                        assert(handle_of(to_free@[m]) == handle_of(v));
                    }
                }
            }
            i += 1;
        }
        proof {
            let s = self.fields@;
            assert forall|v: Value| to_free@.contains(v) implies releasable(self@, v) by {
                assert(bound_before(s, s.len() as int, v));
                let j = choose|j: int| 0 <= j < s.len() && #[trigger] s[j].value == v;
                lemma_find_at(s, j);
                assert(self@.contains_key(s[j].name@) && self@[s[j].name@] == v);
            }
            assert forall|v: Value| releasable(self@, v) implies covers(to_free@, v) by {
                let k = choose|k: Seq<char>| self@.contains_key(k) && #[trigger] self@[k] == v;
                lemma_find_some(s, k);
                let j = choose|j: int| 0 <= j < s.len() && s[j].name@ == k;
                lemma_find_at(s, j);
                assert(s[j].value == v);
            }
            assert forall|a: int, b: int| 0 <= a < b < to_free@.len() implies to_free@[a] != to_free@[b] by {
                assert(handle_of(to_free@[a]) != handle_of(to_free@[b]));
            }
        }
        let ghost start = heap@;
        let mut n: usize = 0;
        while n < to_free.len()
            invariant
                n <= to_free@.len(),
                start == old(heap)@,
                heap@ == after_release(start, to_free@.take(n as int)),
                forall|v: Value| to_free@.contains(v) ==> owns_payload(v),
            decreases to_free@.len() - n,
        {
            let v = to_free[n];
            let ghost before = heap@;
            assert(to_free@.contains(v));
            let h = v.owned_handle().unwrap();
            if v.class() == Class::Pooled {
                heap.free_const_value(h);
            } else {
                heap.free_value(h);
            }
            proof {
                let prev = to_free@.take(n as int);
                let next = to_free@.take(n + 1);
                assert(next =~= prev.push(v));
                assert(handle_index(v) == slot_index(h));
                assert forall|i: int| 0 <= i < start.len() implies targeted(next, start, i) == (targeted(prev, start, i) || (handle_index(v) == i && class_of(v) == start[i].class)) by {
                    if targeted(next, start, i) && !(handle_index(v) == i && class_of(v) == start[i].class) {
                        let j = choose|j: int| 0 <= j < next.len() && #[trigger] handle_index(next[j]) == i && class_of(next[j]) == start[i].class;
                        assert(prev[j] == next[j]);
                    }
                    if targeted(prev, start, i) {
                        let j = choose|j: int| 0 <= j < prev.len() && #[trigger] handle_index(prev[j]) == i && class_of(prev[j]) == start[i].class;
                        assert(next[j] == prev[j]);
                    }
                    if handle_index(v) == i && class_of(v) == start[i].class {
                        assert(next[n as int] == v);
                    }
                }
                assert(heap@ =~= after_release(start, next));
            }
            n += 1;
        }
        proof {
            assert(to_free@.take(to_free@.len() as int) =~= to_free@);
        }
        to_free
    }
}

/// The tables are well formed; a dynamic link leads to a table of lower
/// rank, so no dynamic chain loops; a lexical link leads to an older table.
pub open spec fn links_ok(ts: Seq<Table>, rank: Seq<nat>) -> bool {
    &&& rank.len() == ts.len()
    &&& forall|i: int|
        0 <= i < ts.len() ==> {
            &&& (#[trigger] ts[i]).wf()
            &&& (ts[i].spec_dynamic_parent() is Some ==> {
                &&& ts[i].spec_dynamic_parent()->0 < ts.len()
                &&& rank[ts[i].spec_dynamic_parent()->0 as int] < rank[i]
            })
            &&& (ts[i].spec_lexical_parent() is Some ==> ts[i].spec_lexical_parent()->0 < i)
        }
}

/// Table `i` has a dynamic parent of lower rank.
pub open spec fn steps_down(ts: Seq<Table>, rank: Seq<nat>, i: int) -> bool {
    &&& 0 <= i < ts.len()
    &&& rank.len() == ts.len()
    &&& ts[i].spec_dynamic_parent() is Some
    &&& ts[i].spec_dynamic_parent()->0 < ts.len()
    &&& rank[ts[i].spec_dynamic_parent()->0 as int] < rank[i]
}

/// The rank of table `i`, as a termination measure.
pub open spec fn measure(rank: Seq<nat>, i: int) -> nat {
    if 0 <= i < rank.len() {
        rank[i]
    } else {
        0
    }
}

/// What a read of `k` from table `i` sees: the table's own binding, else
/// what its lexical parent sees. The dynamic chain is not consulted.
pub open spec fn read_from(ts: Seq<Table>, i: int, k: Seq<char>) -> Option<Value>
    decreases i,
{
    if 0 <= i < ts.len() {
        if ts[i]@.contains_key(k) {
            Some(ts[i]@[k])
        } else if ts[i].spec_lexical_parent() is Some && ts[i].spec_lexical_parent()->0 < i {
            read_from(ts, ts[i].spec_lexical_parent()->0 as int, k)
        } else {
            None
        }
    } else {
        None
    }
}

/// The indices of the dynamic chain that starts at table `i`, `i` first.
pub open spec fn dynamic_chain(ts: Seq<Table>, rank: Seq<nat>, i: int) -> Seq<int>
    decreases measure(rank, i),
{
    if steps_down(ts, rank, i) {
        seq![i] + dynamic_chain(ts, rank, ts[i].spec_dynamic_parent()->0 as int)
    } else if 0 <= i < ts.len() {
        seq![i]
    } else {
        Seq::empty()
    }
}

/// The first table of the dynamic chain from `i` that itself binds `k`.
pub open spec fn write_target(ts: Seq<Table>, rank: Seq<nat>, i: int, k: Seq<char>) -> Option<int>
    decreases measure(rank, i),
{
    if 0 <= i < ts.len() && ts[i]@.contains_key(k) {
        Some(i)
    } else if steps_down(ts, rank, i) {
        write_target(ts, rank, ts[i].spec_dynamic_parent()->0 as int, k)
    } else {
        None
    }
}

/// What a lookup of `k` from table `i` sees: the first read along the
/// dynamic chain that finds `k`, each step reading through lexical parents.
pub open spec fn lookup_from(ts: Seq<Table>, rank: Seq<nat>, i: int, k: Seq<char>) -> Option<Value>
    decreases measure(rank, i),
{
    if read_from(ts, i, k) is Some {
        read_from(ts, i, k)
    } else if steps_down(ts, rank, i) {
        lookup_from(ts, rank, ts[i].spec_dynamic_parent()->0 as int, k)
    } else {
        None
    }
}

/// The last table of the dynamic chain from `i`.
pub open spec fn chain_tail(ts: Seq<Table>, rank: Seq<nat>, i: int) -> int
    decreases measure(rank, i),
{
    if steps_down(ts, rank, i) {
        chain_tail(ts, rank, ts[i].spec_dynamic_parent()->0 as int)
    } else {
        i
    }
}

/// The table of the dynamic chain from `i` whose parent is the chain's
/// tail, if the chain has more than one table.
pub open spec fn before_tail(ts: Seq<Table>, rank: Seq<nat>, i: int) -> Option<int>
    decreases measure(rank, i),
{
    if steps_down(ts, rank, i) {
        let p = ts[i].spec_dynamic_parent()->0 as int;
        if ts[p].spec_dynamic_parent() is None {
            Some(i)
        } else {
            before_tail(ts, rank, p)
        }
    } else {
        None
    }
}

/// `b` is `a` with `k` bound to `v` in table `t`, and nothing else changed.
pub open spec fn rebound(a: Seq<Table>, b: Seq<Table>, t: int, k: Seq<char>, v: Value) -> bool {
    &&& b.len() == a.len()
    &&& forall|j: int| 0 <= j < a.len() && j != t ==> b[j] == a[j]
    &&& b[t]@ == a[t]@.insert(k, v)
    &&& b[t].wf()
    &&& b[t].spec_dynamic_parent() == a[t].spec_dynamic_parent()
    &&& b[t].spec_lexical_parent() == a[t].spec_lexical_parent()
}

/// `b` is `a` with the dynamic parent of table `t` set to `p`, and nothing
/// else changed.
pub open spec fn relinked(a: Seq<Table>, b: Seq<Table>, t: int, p: Option<usize>) -> bool {
    &&& b.len() == a.len()
    &&& forall|j: int| 0 <= j < a.len() && j != t ==> b[j] == a[j]
    &&& b[t] == a[t].with_dynamic_parent(p)
    &&& b[t]@ == a[t]@
    &&& b[t].wf() == a[t].wf()
    &&& b[t].spec_dynamic_parent() == p
    &&& b[t].spec_lexical_parent() == a[t].spec_lexical_parent()
}

impl Table {
    /// This table with its dynamic parent replaced by `p`.
    pub closed spec fn with_dynamic_parent(self, p: Option<usize>) -> Table {
        Table { dynamic_parent: p, ..self }
    }
}

proof fn lemma_chain_step(ts: Seq<Table>, rank: Seq<nat>, i: int)
    requires
        links_ok(ts, rank),
        0 <= i < ts.len(),
    ensures
        dynamic_chain(ts, rank, i)[0] == i,
        dynamic_chain(ts, rank, i).len() >= 1,
        steps_down(ts, rank, i) <==> ts[i].spec_dynamic_parent() is Some,
        !steps_down(ts, rank, i) ==> dynamic_chain(ts, rank, i) == seq![i],
        steps_down(ts, rank, i) ==> forall|x: int|
            #[trigger] dynamic_chain(ts, rank, i).contains(x) <==> x == i || dynamic_chain(
                ts,
                rank,
                ts[i].spec_dynamic_parent()->0 as int,
            ).contains(x),
{
    assert(ts[i].wf());
    if steps_down(ts, rank, i) {
        let p = ts[i].spec_dynamic_parent()->0 as int;
        let c = dynamic_chain(ts, rank, i);
        let cp = dynamic_chain(ts, rank, p);
        assert(c == seq![i] + cp);
        assert forall|x: int| #[trigger] c.contains(x) <==> x == i || cp.contains(x) by {
            if c.contains(x) && x != i {
                let m = choose|m: int| 0 <= m < c.len() && c[m] == x;
                assert(cp[m - 1] == x);
            }
            if cp.contains(x) {
                let m = choose|m: int| 0 <= m < cp.len() && cp[m] == x;
                assert(c[m + 1] == x);
            }
            if x == i {
                assert(c[0] == x);
            }
        }
    }
}

proof fn lemma_tail(ts: Seq<Table>, rank: Seq<nat>, i: int)
    requires
        links_ok(ts, rank),
        0 <= i < ts.len(),
    ensures
        0 <= chain_tail(ts, rank, i) < ts.len(),
        rank[chain_tail(ts, rank, i)] <= rank[i],
        ts[chain_tail(ts, rank, i)].spec_dynamic_parent() is None,
        chain_tail(ts, rank, i) == i <==> ts[i].spec_dynamic_parent() is None,
    decreases rank[i],
{
    assert(ts[i].wf());
    if steps_down(ts, rank, i) {
        let p = ts[i].spec_dynamic_parent()->0 as int;
        lemma_tail(ts, rank, p);
    }
}

/// An arena of tables. A table is named by its index; links between tables
/// are indices too. Each table carries a ghost rank that falls along every
/// dynamic link, which keeps dynamic chains free of loops.
pub struct Scopes {
    tables: Vec<Table>,
    ranks: Ghost<Seq<nat>>,
}

impl View for Scopes {
    type V = Seq<Table>;

    closed spec fn view(&self) -> Seq<Table> {
        self.tables@
    }
}

impl Scopes {
    /// The ranks that witness that no dynamic chain loops.
    pub closed spec fn ranks(&self) -> Seq<nat> {
        self.ranks@
    }

    pub open spec fn wf(&self) -> bool {
        links_ok(self@, self.ranks())
    }

    /// An empty arena.
    pub fn new() -> (r: Scopes)
        ensures
            r.wf(),
            r@ == Seq::<Table>::empty(),
    {
        Scopes { tables: Vec::new(), ranks: Ghost(Seq::empty()) }
    }

    /// The number of tables.
    pub fn len(&self) -> (r: usize)
        ensures
            r == self@.len(),
    {
        self.tables.len()
    }

    /// The table at index `at`.
    pub fn table(&self, at: usize) -> (r: &Table)
        requires
            at < self@.len(),
        ensures
            *r == self@[at as int],
    {
        &self.tables[at]
    }

    /// Adds `table` as the newest table, with the given lexical parent and
    /// no dynamic parent; returns its index.
    pub fn add(&mut self, table: Table, lexical_parent: Option<usize>) -> (r: usize)
        requires
            old(self).wf(),
            table.wf(),
            lexical_parent is Some ==> lexical_parent->0 < old(self)@.len(),
        ensures
            final(self).wf(),
            r == old(self)@.len(),
            final(self)@.len() == old(self)@.len() + 1,
            final(self)@.take(r as int) == old(self)@,
            final(self).ranks().take(r as int) == old(self).ranks(),
            final(self)@[r as int]@ == table@,
            final(self)@[r as int].spec_dynamic_parent() is None,
            final(self)@[r as int].spec_lexical_parent() == lexical_parent,
    {
        let mut table = table;
        table.dynamic_parent = None;
        table.lexical_parent = lexical_parent;
        self.tables.push(table);
        self.ranks = Ghost(self.ranks@.push(0));
        assert(self@.take(old(self)@.len() as int) =~= old(self)@);
        assert(self.ranks().take(old(self)@.len() as int) =~= old(self).ranks());
        assert(links_ok(self@, self.ranks())) by {
            assert forall|i: int| 0 <= i < self@.len() - 1 implies self@[i] == old(self)@[i] by {}
        }
        self.tables.len() - 1
    }

    /// Binds `name` in table `at` itself, unless that table already binds it.
    pub fn define(&mut self, at: usize, address: &Address, name: &str, value: Value) -> (r: Result<(), Error>)
        requires
            old(self).wf(),
            at < old(self)@.len(),
        ensures
            final(self).wf(),
            final(self).ranks() == old(self).ranks(),
            r is Ok <==> !old(self)@[at as int]@.contains_key(name@),
            r is Ok ==> rebound(old(self)@, final(self)@, at as int, name@, value),
            r is Err ==> final(self)@ == old(self)@ && is_error(r->Err_0, ErrorKind::AlreadyDefined, *address, name@),
    {
        let r = self.tables[at].define(address, name, value);
        proof {
            if r is Err {
                assert(self@ =~= old(self)@);
            }
        }
        r
    }

    /// Rebinds `name` in table `at` itself, if that table binds it; no
    /// other table changes.
    pub fn set_local(&mut self, at: usize, address: &Address, name: &str, value: Value) -> (r: Result<(), Error>)
        requires
            old(self).wf(),
            at < old(self)@.len(),
        ensures
            final(self).wf(),
            final(self).ranks() == old(self).ranks(),
            r is Ok <==> old(self)@[at as int]@.contains_key(name@),
            r is Ok ==> rebound(old(self)@, final(self)@, at as int, name@, value),
            r is Err ==> final(self)@ == old(self)@ && is_error(r->Err_0, ErrorKind::NotDefined, *address, name@),
    {
        let r = self.tables[at].set_local(address, name, value);
        proof {
            if r is Err {
                assert(self@ =~= old(self)@);
            }
        }
        r
    }

    /// Reads `name` from table `at`: its own binding, else through its
    /// lexical parents.
    pub fn resolve_read(&self, at: usize, address: &Address, name: &str) -> (r: Result<Value, Error>)
        requires
            self.wf(),
            at < self@.len(),
        ensures
            match read_from(self@, at as int, name@) {
                Some(v) => r == Ok::<Value, Error>(v),
                None => r is Err && is_error(r->Err_0, ErrorKind::NotFound, *address, name@),
            },
    {
        let mut cur = at;
        loop
            invariant
                self.wf(),
                cur < self@.len(),
                read_from(self@, cur as int, name@) == read_from(self@, at as int, name@),
            decreases cur,
        {
            assert(self@[cur as int].wf());
            match self.tables[cur].get(name) {
                Some(v) => {
                    return Ok(v);
                },
                None => {},
            }
            match self.tables[cur].lexical_parent {
                Some(p) => {
                    cur = p;
                },
                None => {
                    let key = name.to_owned();
                    return Err(name_error(ErrorKind::NotFound, address, &key));
                },
            }
        }
    }

    /// Whether a read of `name` from table `at` would find it.
    pub fn exists_readable(&self, at: usize, name: &str) -> (r: bool)
        requires
            self.wf(),
            at < self@.len(),
        ensures
            r == read_from(self@, at as int, name@) is Some,
    {
        let mut cur = at;
        loop
            invariant
                self.wf(),
                cur < self@.len(),
                read_from(self@, cur as int, name@) == read_from(self@, at as int, name@),
            decreases cur,
        {
            assert(self@[cur as int].wf());
            if self.tables[cur].exists_local(name) {
                return true;
            }
            match self.tables[cur].lexical_parent {
                Some(p) => {
                    cur = p;
                },
                None => {
                    return false;
                },
            }
        }
    }

    /// The first table of the dynamic chain from `at` that itself binds
    /// `name`.
    fn find_target(&self, at: usize, name: &str) -> (r: Option<usize>)
        requires
            self.wf(),
            at < self@.len(),
        ensures
            r is Some <==> write_target(self@, self.ranks(), at as int, name@) is Some,
            r is Some ==> r->0 == write_target(self@, self.ranks(), at as int, name@)->0 && r->0 < self@.len(),
    {
        let mut cur = at;
        loop
            invariant
                self.wf(),
                cur < self@.len(),
                write_target(self@, self.ranks(), cur as int, name@) == write_target(self@, self.ranks(), at as int, name@),
            decreases self.ranks()[cur as int],
        {
            assert(self@[cur as int].wf());
            if self.tables[cur].exists_local(name) {
                return Some(cur);
            }
            match self.tables[cur].dynamic_parent {
                Some(p) => {
                    cur = p;
                },
                None => {
                    return None;
                },
            }
        }
    }

    /// Assigns `value` to `name` in the first table of the dynamic chain
    /// from `at` that itself binds `name`.
    pub fn set(&mut self, at: usize, address: &Address, name: &str, value: Value) -> (r: Result<(), Error>)
        requires
            old(self).wf(),
            at < old(self)@.len(),
        ensures
            final(self).wf(),
            final(self).ranks() == old(self).ranks(),
            match write_target(old(self)@, old(self).ranks(), at as int, name@) {
                Some(t) => r is Ok && rebound(old(self)@, final(self)@, t, name@, value),
                None => r is Err && final(self)@ == old(self)@ && is_error(
                    r->Err_0,
                    ErrorKind::NotDefined,
                    *address,
                    name@,
                ),
            },
    {
        match self.find_target(at, name) {
            Some(t) => {
                let r = self.set_local(t, address, name, value);
                proof {
                    lemma_target_binds(old(self)@, old(self).ranks(), at as int, name@);
                }
                r
            },
            None => {
                let key = name.to_owned();
                Err(name_error(ErrorKind::NotDefined, address, &key))
            },
        }
    }

    /// Whether a lookup of `name` from table `at` would find it.
    pub fn has(&self, at: usize, name: &str) -> (r: bool)
        requires
            self.wf(),
            at < self@.len(),
        ensures
            r == lookup_from(self@, self.ranks(), at as int, name@) is Some,
    {
        let mut cur = at;
        loop
            invariant
                self.wf(),
                cur < self@.len(),
                lookup_from(self@, self.ranks(), cur as int, name@) == lookup_from(self@, self.ranks(), at as int, name@),
            decreases self.ranks()[cur as int],
        {
            assert(self@[cur as int].wf());
            if self.exists_readable(cur, name) {
                return true;
            }
            match self.tables[cur].dynamic_parent {
                Some(p) => {
                    cur = p;
                },
                None => {
                    return false;
                },
            }
        }
    }

    /// Looks `name` up from table `at`: a read from each table of the
    /// dynamic chain in turn, until one finds it.
    pub fn lookup(&self, at: usize, address: &Address, name: &str) -> (r: Result<Value, Error>)
        requires
            self.wf(),
            at < self@.len(),
        ensures
            match lookup_from(self@, self.ranks(), at as int, name@) {
                Some(v) => r == Ok::<Value, Error>(v),
                None => r is Err && is_error(r->Err_0, ErrorKind::NotFound, *address, name@),
            },
    {
        let mut cur = at;
        loop
            invariant
                self.wf(),
                cur < self@.len(),
                lookup_from(self@, self.ranks(), cur as int, name@) == lookup_from(self@, self.ranks(), at as int, name@),
            decreases self.ranks()[cur as int],
        {
            assert(self@[cur as int].wf());
            if self.exists_readable(cur, name) {
                return self.resolve_read(cur, address, name);
            }
            match self.tables[cur].dynamic_parent {
                Some(p) => {
                    cur = p;
                },
                None => {
                    let key = name.to_owned();
                    return Err(name_error(ErrorKind::NotFound, address, &key));
                },
            }
        }
    }

    /// The last table of the dynamic chain from `at`.
    fn tail(&self, at: usize) -> (r: usize)
        requires
            self.wf(),
            at < self@.len(),
        ensures
            r == chain_tail(self@, self.ranks(), at as int),
            r < self@.len(),
            self@[r as int].spec_dynamic_parent() is None,
    {
        let mut cur = at;
        loop
            invariant
                self.wf(),
                cur < self@.len(),
                chain_tail(self@, self.ranks(), cur as int) == chain_tail(self@, self.ranks(), at as int),
            decreases self.ranks()[cur as int],
        {
            assert(self@[cur as int].wf());
            match self.tables[cur].dynamic_parent {
                Some(p) => {
                    cur = p;
                },
                None => {
                    return cur;
                },
            }
        }
    }

    /// Whether the dynamic chain from `from` passes through `target`.
    fn reaches(&self, from: usize, target: usize) -> (r: bool)
        requires
            self.wf(),
            from < self@.len(),
        ensures
            r == dynamic_chain(self@, self.ranks(), from as int).contains(target as int),
    {
        let mut cur = from;
        loop
            invariant
                self.wf(),
                cur < self@.len(),
                dynamic_chain(self@, self.ranks(), cur as int).contains(target as int) == dynamic_chain(
                    self@,
                    self.ranks(),
                    from as int,
                ).contains(target as int),
            decreases self.ranks()[cur as int],
        {
            proof {
                lemma_chain_step(self@, self.ranks(), cur as int);
            }
            if cur == target {
                assert(dynamic_chain(self@, self.ranks(), cur as int)[0] == target);
                return true;
            }
            match self.tables[cur].dynamic_parent {
                Some(p) => {
                    cur = p;
                },
                None => {
                    return false;
                },
            }
        }
    }

    /// Attaches `root` at the end of the dynamic chain from `at`: the chain's
    /// tail gets `root` as its dynamic parent. The link is refused only when
    /// it would close a loop, that is when the chain from `root` passes
    /// through that tail; returns whether it was made.
    pub fn set_root(&mut self, at: usize, root: usize) -> (r: bool)
        requires
            old(self).wf(),
            at < old(self)@.len(),
            root < old(self)@.len(),
        ensures
            final(self).wf(),
            r == !dynamic_chain(old(self)@, old(self).ranks(), root as int).contains(
                chain_tail(old(self)@, old(self).ranks(), at as int),
            ),
            r ==> relinked(old(self)@, final(self)@, chain_tail(old(self)@, old(self).ranks(), at as int), Some(root)),
            r ==> dynamic_chain(final(self)@, final(self).ranks(), at as int) == dynamic_chain(
                old(self)@,
                old(self).ranks(),
                at as int,
            ) + dynamic_chain(old(self)@, old(self).ranks(), root as int),
            !r ==> final(self)@ == old(self)@ && final(self).ranks() == old(self).ranks(),
    {
        let t = self.tail(at);
        if self.reaches(root, t) {
            return false;
        }
        let ghost ts = self@;
        let ghost rk = self.ranks();
        let ghost nr = Seq::new(
            rk.len(),
            |x: int|
                if dynamic_chain(ts, rk, x).contains(t as int) {
                    rk[x] + rk[root as int] + 1
                } else {
                    rk[x]
                },
        );
        self.tables[t].dynamic_parent = Some(root);
        self.ranks = Ghost(nr);
        proof {
            lemma_chain_step(ts, rk, t as int);
            lemma_chain_step(ts, rk, root as int);
            assert(self@[t as int] == ts[t as int].with_dynamic_parent(Some(root)));
            assert forall|x: int| 0 <= x < self@.len() implies {
                &&& (#[trigger] self@[x]).wf()
                &&& (self@[x].spec_dynamic_parent() is Some ==> {
                    &&& self@[x].spec_dynamic_parent()->0 < self@.len()
                    &&& nr[self@[x].spec_dynamic_parent()->0 as int] < nr[x]
                })
                &&& (self@[x].spec_lexical_parent() is Some ==> self@[x].spec_lexical_parent()->0 < x)
            } by {
                assert(ts[x].wf());
                if x != t {
                    assert(self@[x] == ts[x]);
                    lemma_chain_step(ts, rk, x);
                    if ts[x].spec_dynamic_parent() is Some {
                        let p = ts[x].spec_dynamic_parent()->0 as int;
                        assert(dynamic_chain(ts, rk, x).contains(t as int) == dynamic_chain(ts, rk, p).contains(t as int));
                    }
                }
            }
            assert(links_ok(self@, nr));
            attached_chain(ts, rk, self@, nr, at as int, root);
        }
        true
    }

    /// Unlinks the tail of the dynamic chain from `at`: the table whose
    /// dynamic parent is the tail loses that parent. A chain of one table
    /// stays as it is.
    pub fn del_root(&mut self, at: usize)
        requires
            old(self).wf(),
            at < old(self)@.len(),
        ensures
            final(self).wf(),
            final(self).ranks() == old(self).ranks(),
            match before_tail(old(self)@, old(self).ranks(), at as int) {
                Some(b) => relinked(old(self)@, final(self)@, b, None),
                None => final(self)@ == old(self)@,
            },
    {
        let mut cur = at;
        loop
            invariant
                self.wf(),
                self@ == old(self)@,
                self.ranks() == old(self).ranks(),
                cur < self@.len(),
                before_tail(self@, self.ranks(), cur as int) == before_tail(self@, self.ranks(), at as int),
            decreases self.ranks()[cur as int],
        {
            assert(self@[cur as int].wf());
            match self.tables[cur].dynamic_parent {
                Some(p) => {
                    if self.tables[p].dynamic_parent.is_none() {
                        self.tables[cur].dynamic_parent = None;
                        assert(self@[cur as int] == old(self)@[cur as int].with_dynamic_parent(None));
                        return;
                    }
                    cur = p;
                },
                None => {
                    return;
                },
            }
        }
    }
}

/// After `k` is defined as `v` in a table that did not bind it, a read of
/// `k` from that table gives `v`, and the table now binds `k`, so a second
/// definition of `k` there is refused.
pub proof fn define_then_read(before: Seq<Table>, after: Seq<Table>, at: int, k: Seq<char>, v: Value)
    requires
        0 <= at < before.len(),
        !before[at]@.contains_key(k),
        rebound(before, after, at, k, v),
    ensures
        read_from(after, at, k) == Some(v),
        after[at]@.contains_key(k),
{
}

/// Defining one name leaves what every table reads for every other name as
/// it was: definitions of disjoint names do not disturb each other.
pub proof fn define_keeps_other_names(
    before: Seq<Table>,
    after: Seq<Table>,
    at: int,
    k: Seq<char>,
    v: Value,
    i: int,
    other: Seq<char>,
)
    requires
        0 <= at < before.len(),
        rebound(before, after, at, k, v),
        other != k,
    ensures
        read_from(after, i, other) == read_from(before, i, other),
    decreases i,
{
    if 0 <= i < before.len() {
        assert(after[i]@.contains_key(other) == before[i]@.contains_key(other));
        if after[i]@.contains_key(other) {
            assert(after[i]@[other] == before[i]@[other]);
        } else if before[i].spec_lexical_parent() is Some && before[i].spec_lexical_parent()->0 < i {
            define_keeps_other_names(before, after, at, k, v, before[i].spec_lexical_parent()->0 as int, other);
        }
    }
}

/// A table whose lexical parent binds a name that the table itself does not
/// bind reads the parent's value for it.
pub proof fn lexical_child_reads_parent(ts: Seq<Table>, rank: Seq<nat>, c: int, k: Seq<char>)
    requires
        links_ok(ts, rank),
        0 <= c < ts.len(),
        ts[c].spec_lexical_parent() is Some,
        !ts[c]@.contains_key(k),
        ts[ts[c].spec_lexical_parent()->0 as int]@.contains_key(k),
    ensures
        read_from(ts, c, k) == Some(ts[ts[c].spec_lexical_parent()->0 as int]@[k]),
{
    assert(ts[c].wf());
    let p = ts[c].spec_lexical_parent()->0 as int;
    assert(p < c);
    assert(read_from(ts, p, k) == Some(ts[p]@[k]));
}

proof fn lemma_chain_unaffected(
    before: Seq<Table>,
    rank: Seq<nat>,
    after: Seq<Table>,
    rank2: Seq<nat>,
    t: int,
    p: Option<usize>,
    y: int,
)
    requires
        links_ok(before, rank),
        links_ok(after, rank2),
        0 <= t < before.len(),
        relinked(before, after, t, p),
        0 <= y < before.len(),
        !dynamic_chain(before, rank, y).contains(t),
    ensures
        dynamic_chain(after, rank2, y) == dynamic_chain(before, rank, y),
    decreases rank[y],
{
    lemma_chain_step(before, rank, y);
    lemma_chain_step(after, rank2, y);
    assert(dynamic_chain(before, rank, y)[0] == y);
    assert(y != t);
    assert(after[y] == before[y]);
    if before[y].spec_dynamic_parent() is Some {
        let q = before[y].spec_dynamic_parent()->0 as int;
        lemma_chain_unaffected(before, rank, after, rank2, t, p, q);
    }
}

/// Once `root` is attached at the end of the dynamic chain from `c`, where
/// the chain from `root` does not pass through that end, the chain from `c`
/// runs through its old tables and then through the chain from `root`.
pub proof fn attached_chain(before: Seq<Table>, rank: Seq<nat>, after: Seq<Table>, rank2: Seq<nat>, c: int, root: usize)
    requires
        links_ok(before, rank),
        links_ok(after, rank2),
        0 <= c < before.len(),
        root < before.len(),
        !dynamic_chain(before, rank, root as int).contains(chain_tail(before, rank, c)),
        relinked(before, after, chain_tail(before, rank, c), Some(root)),
    ensures
        dynamic_chain(after, rank2, c) == dynamic_chain(before, rank, c) + dynamic_chain(before, rank, root as int),
    decreases rank[c],
{
    let t = chain_tail(before, rank, c);
    lemma_tail(before, rank, c);
    lemma_chain_step(before, rank, c);
    lemma_chain_step(after, rank2, c);
    if c == t {
        lemma_chain_unaffected(before, rank, after, rank2, t, Some(root), root as int);
        assert(dynamic_chain(after, rank2, c) =~= seq![c] + dynamic_chain(before, rank, root as int));
    } else {
        assert(after[c] == before[c]);
        let p = before[c].spec_dynamic_parent()->0 as int;
        attached_chain(before, rank, after, rank2, p, root);
        assert(dynamic_chain(after, rank2, c) =~= dynamic_chain(before, rank, c) + dynamic_chain(before, rank, root as int));
    }
}

proof fn lemma_before_attached_tail(
    before: Seq<Table>,
    rank: Seq<nat>,
    mid: Seq<Table>,
    rank2: Seq<nat>,
    c: int,
    root: usize,
)
    requires
        links_ok(before, rank),
        links_ok(mid, rank2),
        0 <= c < before.len(),
        root < before.len(),
        before[root as int].spec_dynamic_parent() is None,
        !dynamic_chain(before, rank, root as int).contains(chain_tail(before, rank, c)),
        relinked(before, mid, chain_tail(before, rank, c), Some(root)),
    ensures
        before_tail(mid, rank2, c) == Some(chain_tail(before, rank, c)),
    decreases rank[c],
{
    let t = chain_tail(before, rank, c);
    lemma_tail(before, rank, c);
    lemma_chain_step(before, rank, root as int);
    lemma_chain_step(mid, rank2, c);
    assert(root != t);
    assert(mid[root as int] == before[root as int]);
    if c != t {
        assert(mid[c] == before[c]);
        let p = before[c].spec_dynamic_parent()->0 as int;
        lemma_tail(before, rank, p);
        lemma_before_attached_tail(before, rank, mid, rank2, p, root);
        if p != t {
            assert(mid[p] == before[p]);
            lemma_chain_step(before, rank, p);
        }
    }
}

/// Attaching a root that has no dynamic parent of its own and then
/// detaching the tail gives back the tables exactly as they were: the link
/// that detaching removes is the one that attaching made.
pub proof fn detach_undoes_attach(
    before: Seq<Table>,
    rank: Seq<nat>,
    mid: Seq<Table>,
    rank2: Seq<nat>,
    after: Seq<Table>,
    at: int,
    root: usize,
)
    requires
        links_ok(before, rank),
        links_ok(mid, rank2),
        0 <= at < before.len(),
        root < before.len(),
        before[root as int].spec_dynamic_parent() is None,
        !dynamic_chain(before, rank, root as int).contains(chain_tail(before, rank, at)),
        relinked(before, mid, chain_tail(before, rank, at), Some(root)),
        relinked(mid, after, chain_tail(before, rank, at), None),
    ensures
        before_tail(mid, rank2, at) == Some(chain_tail(before, rank, at)),
        after == before,
{
    let t = chain_tail(before, rank, at);
    lemma_before_attached_tail(before, rank, mid, rank2, at, root);
    lemma_tail(before, rank, at);
    assert(before[t].with_dynamic_parent(Some(root)).with_dynamic_parent(None) == before[t]);
    assert(after =~= before);
}

/// An assignment from table `i` reaches the first table of its dynamic
/// chain that binds the name, and fails exactly when no table of the chain
/// binds it.
pub proof fn set_reaches_first_binder(ts: Seq<Table>, rank: Seq<nat>, i: int, k: Seq<char>)
    requires
        links_ok(ts, rank),
        0 <= i < ts.len(),
    ensures
        write_target(ts, rank, i, k) is None <==> forall|m: int|
            0 <= m < dynamic_chain(ts, rank, i).len() ==> !ts[#[trigger] dynamic_chain(ts, rank, i)[m]]@.contains_key(k),
        write_target(ts, rank, i, k) is Some ==> exists|m: int|
            0 <= m < dynamic_chain(ts, rank, i).len() && #[trigger] dynamic_chain(ts, rank, i)[m] == write_target(
                ts,
                rank,
                i,
                k,
            )->0 && ts[dynamic_chain(ts, rank, i)[m]]@.contains_key(k) && forall|n: int|
                0 <= n < m ==> !ts[#[trigger] dynamic_chain(ts, rank, i)[n]]@.contains_key(k),
    decreases rank[i],
{
    let c = dynamic_chain(ts, rank, i);
    lemma_chain_step(ts, rank, i);
    assert(c[0] == i);
    if !ts[i]@.contains_key(k) && steps_down(ts, rank, i) {
        let p = ts[i].spec_dynamic_parent()->0 as int;
        set_reaches_first_binder(ts, rank, p, k);
        let cp = dynamic_chain(ts, rank, p);
        assert(c =~= seq![i] + cp);
        assert forall|m: int| 0 < m < c.len() implies c[m] == cp[m - 1] by {}
        if write_target(ts, rank, i, k) is Some {
            let m = choose|m: int|
                0 <= m < cp.len() && #[trigger] cp[m] == write_target(ts, rank, p, k)->0 && ts[cp[m]]@.contains_key(k)
                    && forall|n: int| 0 <= n < m ==> !ts[#[trigger] cp[n]]@.contains_key(k);
            assert(c[m + 1] == cp[m]);
            assert forall|n: int| 0 <= n < m + 1 implies !ts[#[trigger] c[n]]@.contains_key(k) by {
                if n > 0 {
                    assert(c[n] == cp[n - 1]);
                }
            }
        } else {
            assert forall|m: int| 0 <= m < c.len() implies !ts[#[trigger] c[m]]@.contains_key(k) by {
                if m > 0 {
                    assert(c[m] == cp[m - 1]);
                }
            }
        }
    }
}

/// When two names of a table hold owning values with the same handle,
/// among the values a teardown releases exactly one carries that handle.
pub proof fn alias_released_once(
    m: Map<Seq<char>, Value>,
    released: Seq<Value>,
    k1: Seq<char>,
    k2: Seq<char>,
)
    requires
        handles_distinct(released),
        forall|v: Value| releasable(m, v) ==> covers(released, v),
        m.contains_key(k1),
        m.contains_key(k2),
        owns_payload(m[k1]),
        handle_of(m[k1]) == handle_of(m[k2]),
    ensures
        exists|i: int|
            0 <= i < released.len() && handle_of(released[i]) == handle_of(m[k2]) && forall|j: int|
                0 <= j < released.len() && handle_of(#[trigger] released[j]) == handle_of(m[k2]) ==> j == i,
{
    assert(releasable(m, m[k1]));
    let i = choose|i: int| 0 <= i < released.len() && handle_of(#[trigger] released[i]) == handle_of(m[k1]);
    assert forall|j: int| 0 <= j < released.len() && handle_of(#[trigger] released[j]) == handle_of(m[k2]) implies j == i by {
        if j < i {
            assert(handle_of(released[j]) != handle_of(released[i]));
        } else if j > i {
            assert(handle_of(released[i]) != handle_of(released[j]));
        }
    }
}

proof fn lemma_target_binds(ts: Seq<Table>, rank: Seq<nat>, i: int, k: Seq<char>)
    requires
        links_ok(ts, rank),
        write_target(ts, rank, i, k) is Some,
    ensures
        0 <= write_target(ts, rank, i, k)->0 < ts.len(),
        ts[write_target(ts, rank, i, k)->0]@.contains_key(k),
    decreases measure(rank, i),
{
    if !(0 <= i < ts.len() && ts[i]@.contains_key(k)) {
        lemma_target_binds(ts, rank, ts[i].spec_dynamic_parent()->0 as int, k);
    }
}

} // verus!
