use vstd::prelude::*;

verus! {

/// A handle to a heap payload. Id 0 is the null handle; id `n > 0` names
/// the heap slot at index `n - 1`.
#[derive(Clone, Copy, Debug, PartialEq, Eq, Structural)]
pub struct Handle {
    pub id: u64,
}

impl Handle {
    pub open spec fn spec_is_null(&self) -> bool {
        self.id == 0
    }

    /// The handle that names no payload.
    pub fn null() -> (r: Handle)
        ensures
            r.spec_is_null(),
    {
        Handle { id: 0 }
    }

    #[verifier::when_used_as_spec(spec_is_null)]
    pub fn is_null(&self) -> (r: bool)
        ensures
            r == self.spec_is_null(),
    {
        self.id == 0
    }
}

/// A runtime value: an inline scalar or a handle to a heap payload.
/// Copying a value copies the handle, never the payload. A float is
/// carried as its IEEE-754 bit pattern.
#[derive(Clone, Copy, Debug, PartialEq, Eq, Structural)]
pub enum Value {
    Null,
    Int(i64),
    Float(u64),
    Bool(bool),
    String(Handle),
    List(Handle),
    Fn(Handle),
    Native(Handle),
    Instance(Handle),
    Unit(Handle),
    Type(Handle),
    Trait(Handle),
    Any(Handle),
}

/// The allocation class of a heap payload.
#[derive(Clone, Copy, Debug, PartialEq, Eq, Structural)]
pub enum Class {
    /// Strings, released through the pooled free operation.
    Pooled,
    /// Every other payload, released through the general free operation.
    General,
}

/// The handle carried by a value that may own a payload, if any.
pub open spec fn handle_of(v: Value) -> Option<Handle> {
    match v {
        Value::String(h) => Some(h),
        Value::List(h) => Some(h),
        Value::Fn(h) => Some(h),
        Value::Instance(h) => Some(h),
        Value::Unit(h) => Some(h),
        Value::Type(h) => Some(h),
        Value::Trait(h) => Some(h),
        Value::Any(h) => Some(h),
        _ => None,
    }
}

/// A value owns a payload when it is of a heap kind other than `Native`
/// and its handle is not null.
pub open spec fn owns_payload(v: Value) -> bool {
    match handle_of(v) {
        Some(h) => !h.spec_is_null(),
        None => false,
    }
}

/// The class through which an owning value is released.
pub open spec fn class_of(v: Value) -> Class {
    match v {
        Value::String(_) => Class::Pooled,
        _ => Class::General,
    }
}

impl Value {
    /// The handle of the payload this value owns, if it owns one.
    pub fn owned_handle(&self) -> (r: Option<Handle>)
        ensures
            r is Some <==> owns_payload(*self),
            r is Some ==> Some(r->0) == handle_of(*self),
    {
        let h = match *self {
            Value::String(h) => h,
            Value::List(h) => h,
            Value::Fn(h) => h,
            Value::Instance(h) => h,
            Value::Unit(h) => h,
            Value::Type(h) => h,
            Value::Trait(h) => h,
            Value::Any(h) => h,
            _ => {
                return None;
            },
        };
        if h.is_null() {
            None
        } else {
            Some(h)
        }
    }

    /// Whether this value is of a heap kind other than `Native` and carries `h`.
    pub fn holds_handle(&self, h: Handle) -> (r: bool)
        ensures
            r == (handle_of(*self) == Some(h)),
    {
        match *self {
            Value::String(x) => x == h,
            Value::List(x) => x == h,
            Value::Fn(x) => x == h,
            Value::Instance(x) => x == h,
            Value::Unit(x) => x == h,
            Value::Type(x) => x == h,
            Value::Trait(x) => x == h,
            Value::Any(x) => x == h,
            _ => false,
        }
    }

    /// The class through which this value's payload is released.
    pub fn class(&self) -> (r: Class)
        ensures
            r == class_of(*self),
    {
        match *self {
            Value::String(_) => Class::Pooled,
            _ => Class::General,
        }
    }
}

/// The state of one heap slot.
#[derive(Clone, Copy, Debug, PartialEq, Eq, Structural)]
pub struct Slot {
    pub class: Class,
    /// The payload is allocated and not yet released.
    pub live: bool,
    /// The payload is shielded from reclamation until anchored in a scope.
    pub protected: bool,
    /// The host type of an opaque payload; 0 for every other payload.
    pub tag: u64,
}

/// The payload store. Slots are never reused: a released slot stays
/// released, so a second release of the same handle is detected.
pub struct Heap {
    slots: Vec<Slot>,
}

/// The slot index that a non-null handle names.
pub open spec fn slot_index(h: Handle) -> int {
    h.id - 1
}

impl View for Heap {
    type V = Seq<Slot>;

    closed spec fn view(&self) -> Seq<Slot> {
        self.slots@
    }
}

impl Heap {
    /// The handle names a slot of this heap.
    pub open spec fn spec_valid(&self, h: Handle) -> bool {
        !h.spec_is_null() && slot_index(h) < self@.len()
    }

    /// An empty heap.
    pub fn new() -> (r: Heap)
        ensures
            r@ == Seq::<Slot>::empty(),
    {
        Heap { slots: Vec::new() }
    }

    /// Allocates a payload of the given class; the new slot is live and
    /// unprotected.
    pub fn allocate(&mut self, class: Class) -> (r: Handle)
        requires
            old(self)@.len() < u64::MAX,
        ensures
            final(self)@ == old(self)@.push(Slot { class, live: true, protected: false, tag: 0 }),
            !r.spec_is_null(),
            slot_index(r) == old(self)@.len(),
    {
        self.slots.push(Slot { class, live: true, protected: false, tag: 0 });
        Handle { id: self.slots.len() as u64 }
    }

    /// Allocates an opaque host payload whose host type is `tag`, in the
    /// general class.
    pub fn allocate_opaque(&mut self, tag: u64) -> (r: Handle)
        requires
            old(self)@.len() < u64::MAX,
        ensures
            final(self)@ == old(self)@.push(Slot { class: Class::General, live: true, protected: false, tag }),
            !r.spec_is_null(),
            slot_index(r) == old(self)@.len(),
    {
        self.slots.push(Slot { class: Class::General, live: true, protected: false, tag });
        Handle { id: self.slots.len() as u64 }
    }

    /// The handle of an opaque value whose payload is live and of host type
    /// `tag`; `None` for any other value, so a wrong cast is never made.
    pub fn downcast(&self, v: Value, tag: u64) -> (r: Option<Handle>)
        ensures
            r is Some <==> (v is Any && self.spec_valid(v->Any_0) && self@[slot_index(v->Any_0)].live
                && self@[slot_index(v->Any_0)].tag == tag),
            r is Some ==> r->0 == v->Any_0,
    {
        let h = match v {
            Value::Any(h) => h,
            _ => {
                return None;
            },
        };
        match self.index_of(h) {
            Some(i) => {
                if self.slots[i].live && self.slots[i].tag == tag {
                    Some(h)
                } else {
                    None
                }
            },
            None => None,
        }
    }

    /// The slot index that `h` names, if it names a slot of this heap.
    fn index_of(&self, h: Handle) -> (r: Option<usize>)
        ensures
            r is Some <==> self.spec_valid(h),
            r is Some ==> r->0 == slot_index(h),
    {
        if h.id == 0 || h.id - 1 >= self.slots.len() as u64 {
            None
        } else {
            Some((h.id - 1) as usize)
        }
    }

    /// Whether the handle names a live payload of this heap.
    pub fn is_live(&self, h: Handle) -> (r: bool)
        ensures
            r == (self.spec_valid(h) && self@[slot_index(h)].live),
    {
        match self.index_of(h) {
            Some(i) => self.slots[i].live,
            None => false,
        }
    }

    /// Releases the payload behind `h` if it is live and of class `class`;
    /// returns whether it did. Anything else (a null, unknown or already
    /// released handle, or the other class) leaves the heap as it was.
    pub fn release(&mut self, h: Handle, class: Class) -> (r: bool)
        ensures
            r == (old(self).spec_valid(h) && old(self)@[slot_index(h)].live
                && old(self)@[slot_index(h)].class == class),
            r ==> final(self)@ == old(self)@.update(
                slot_index(h),
                Slot { live: false, ..old(self)@[slot_index(h)] },
            ),
            !r ==> final(self)@ == old(self)@,
    {
        let i = match self.index_of(h) {
            Some(i) => i,
            None => {
                return false;
            },
        };
        let s = self.slots[i];
        if !s.live || s.class != class {
            return false;
        }
        self.slots.set(i, Slot { live: false, ..s });
        true
    }

    /// Releases a general payload.
    pub fn free_value(&mut self, h: Handle) -> (r: bool)
        ensures
            r == (old(self).spec_valid(h) && old(self)@[slot_index(h)].live
                && old(self)@[slot_index(h)].class == Class::General),
            r ==> final(self)@ == old(self)@.update(
                slot_index(h),
                Slot { live: false, ..old(self)@[slot_index(h)] },
            ),
            !r ==> final(self)@ == old(self)@,
    {
        self.release(h, Class::General)
    }

    /// Releases a pooled (string) payload.
    pub fn free_const_value(&mut self, h: Handle) -> (r: bool)
        ensures
            r == (old(self).spec_valid(h) && old(self)@[slot_index(h)].live
                && old(self)@[slot_index(h)].class == Class::Pooled),
            r ==> final(self)@ == old(self)@.update(
                slot_index(h),
                Slot { live: false, ..old(self)@[slot_index(h)] },
            ),
            !r ==> final(self)@ == old(self)@,
    {
        self.release(h, Class::Pooled)
    }

    /// Marks a live payload as protected from reclamation, or lifts that
    /// mark; returns whether the handle named a live payload.
    pub fn set_protected(&mut self, h: Handle, protected: bool) -> (r: bool)
        ensures
            r == (old(self).spec_valid(h) && old(self)@[slot_index(h)].live),
            r ==> final(self)@ == old(self)@.update(
                slot_index(h),
                Slot { protected, ..old(self)@[slot_index(h)] },
            ),
            !r ==> final(self)@ == old(self)@,
    {
        let i = match self.index_of(h) {
            Some(i) => i,
            None => {
                return false;
            },
        };
        let s = self.slots[i];
        if !s.live {
            return false;
        }
        self.slots.set(i, Slot { protected, ..s });
        true
    }

    /// Whether the handle names a live, protected payload.
    pub fn is_protected(&self, h: Handle) -> (r: bool)
        ensures
            r == (self.spec_valid(h) && self@[slot_index(h)].live && self@[slot_index(h)].protected),
    {
        match self.index_of(h) {
            Some(i) => self.slots[i].live && self.slots[i].protected,
            None => false,
        }
    }
}

} // verus!
