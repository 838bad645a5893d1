//! Owners of MLX handles.
//!
//! A handle is a number that the caller exchanges for the object behind it; creating and reading
//! that object is the caller's part. An owner says when its object is to be freed: once, when it
//! is let go.

use vstd::prelude::*;

verus! {

/// Owns a stream.
pub struct Stream {
    raw: u64,
    owned: bool,
}

/// Owns one reference to an array.
pub struct Array {
    raw: u64,
    owned: bool,
}

/// Owns a list of arrays.
pub struct VectorArray {
    raw: u64,
    owned: bool,
}

/// Owns a callable.
pub struct Closure {
    raw: u64,
    owned: bool,
}

/// A handle, and whether it is still to be freed.
pub ghost struct Holding {
    pub handle: u64,
    pub owned: bool,
}

/// What is done with an owner.
pub ghost enum HandleUse {
    /// The handle is handed to a call.
    Read,
    /// A call puts another handle in its place.
    Replace(u64),
    /// The owner lets go.
    Release,
}

/// The owner after a use.
pub open spec fn after_use(holding: Holding, what: HandleUse) -> Holding {
    match what {
        HandleUse::Read => holding,
        HandleUse::Replace(handle) => Holding { handle, ..holding },
        HandleUse::Release => Holding { owned: false, ..holding },
    }
}

/// The handle that a use says to free.
pub open spec fn freed_by(holding: Holding, what: HandleUse) -> Option<u64> {
    if what is Release && holding.owned {
        Some(holding.handle)
    } else {
        None
    }
}

/// The owner after some uses.
pub open spec fn after_uses(holding: Holding, uses: Seq<HandleUse>) -> Holding
    decreases uses.len(),
{
    if uses.len() == 0 {
        holding
    } else {
        after_use(after_uses(holding, uses.drop_last()), uses.last())
    }
}

/// The handles that some uses say to free, in turn.
pub open spec fn freed_by_all(holding: Holding, uses: Seq<HandleUse>) -> Seq<u64>
    decreases uses.len(),
{
    if uses.len() == 0 {
        Seq::empty()
    } else {
        let before = freed_by_all(holding, uses.drop_last());
        match freed_by(after_uses(holding, uses.drop_last()), uses.last()) {
            Some(handle) => before.push(handle),
            None => before,
        }
    }
}

impl View for Stream {
    type V = Holding;

    closed spec fn view(&self) -> Holding {
        Holding { handle: self.raw, owned: self.owned }
    }
}

impl Stream {
    /// Takes over a handle.
    pub fn from_raw(raw: u64) -> (stream: Self)
        ensures
            stream@ == (Holding { handle: raw, owned: true }),
    {
        Stream { raw, owned: true }
    }

    /// The handle; it stays owned.
    pub fn as_raw(&self) -> (raw: u64)
        ensures
            raw == self@.handle,
    {
        self.raw
    }

    /// Lets go of the object: the handle to free, if it is still owned.
    pub fn release(&mut self) -> (freed: Option<u64>)
        ensures
            freed == freed_by(old(self)@, HandleUse::Release),
            final(self)@ == after_use(old(self)@, HandleUse::Release),
    {
        if self.owned {
            self.owned = false;
            Some(self.raw)
        } else {
            None
        }
    }
}

impl View for Array {
    type V = Holding;

    closed spec fn view(&self) -> Holding {
        Holding { handle: self.raw, owned: self.owned }
    }
}

impl Array {
    /// Takes over a handle.
    pub fn from_raw(raw: u64) -> (array: Self)
        ensures
            array@ == (Holding { handle: raw, owned: true }),
    {
        Array { raw, owned: true }
    }

    /// The handle; it stays owned.
    pub fn as_raw(&self) -> (raw: u64)
        ensures
            raw == self@.handle,
    {
        self.raw
    }

    /// Lets go of the object: the handle to free, if it is still owned.
    pub fn release(&mut self) -> (freed: Option<u64>)
        ensures
            freed == freed_by(old(self)@, HandleUse::Release),
            final(self)@ == after_use(old(self)@, HandleUse::Release),
    {
        if self.owned {
            self.owned = false;
            Some(self.raw)
        } else {
            None
        }
    }
}

impl View for VectorArray {
    type V = Holding;

    closed spec fn view(&self) -> Holding {
        Holding { handle: self.raw, owned: self.owned }
    }
}

impl VectorArray {
    /// Takes over a handle.
    pub fn from_raw(raw: u64) -> (list: Self)
        ensures
            list@ == (Holding { handle: raw, owned: true }),
    {
        VectorArray { raw, owned: true }
    }

    /// The handle; it stays owned.
    pub fn as_raw(&self) -> (raw: u64)
        ensures
            raw == self@.handle,
    {
        self.raw
    }

    /// Gives the handle up to the caller; nothing is left to free.
    pub fn into_raw(self) -> (raw: u64)
        ensures
            raw == self@.handle,
    {
        self.raw
    }

    /// The place of the handle, for a call that replaces it.
    pub fn as_mut_ptr(&mut self) -> (raw: &mut u64)
        ensures
            *raw == old(self)@.handle,
            final(self)@ == after_use(old(self)@, HandleUse::Replace(*final(raw))),
    {
        &mut self.raw
    }

    /// Lets go of the object: the handle to free, if it is still owned.
    pub fn release(&mut self) -> (freed: Option<u64>)
        ensures
            freed == freed_by(old(self)@, HandleUse::Release),
            final(self)@ == after_use(old(self)@, HandleUse::Release),
    {
        if self.owned {
            self.owned = false;
            Some(self.raw)
        } else {
            None
        }
    }
}

impl View for Closure {
    type V = Holding;

    closed spec fn view(&self) -> Holding {
        Holding { handle: self.raw, owned: self.owned }
    }
}

impl Closure {
    /// Takes over a handle.
    pub fn from_raw(raw: u64) -> (closure: Self)
        ensures
            closure@ == (Holding { handle: raw, owned: true }),
    {
        Closure { raw, owned: true }
    }

    /// The handle; it stays owned.
    pub fn as_raw(&self) -> (raw: u64)
        ensures
            raw == self@.handle,
    {
        self.raw
    }

    /// Lets go of the object: the handle to free, if it is still owned.
    pub fn release(&mut self) -> (freed: Option<u64>)
        ensures
            freed == freed_by(old(self)@, HandleUse::Release),
            final(self)@ == after_use(old(self)@, HandleUse::Release),
    {
        if self.owned {
            self.owned = false;
            Some(self.raw)
        } else {
            None
        }
    }
}

/// A handle that was taken over and not replaced is the one that every read gives, whatever
/// happens in between; it is freed exactly once if the owner is let go, however often that is, and
/// never before.
pub proof fn law_freed_once(raw: u64, uses: Seq<HandleUse>)
    requires
        forall|i: int| 0 <= i < uses.len() ==> !(#[trigger] uses[i] is Replace),
    ensures
        ({
            let taken = Holding { handle: raw, owned: true };
            &&& after_uses(taken, uses).handle == raw
            &&& after_uses(taken, uses).owned <==> !uses.contains(HandleUse::Release)
            &&& freed_by_all(taken, uses) == (if uses.contains(HandleUse::Release) {
                seq![raw]
            } else {
                Seq::empty()
            })
        }),
    decreases uses.len(),
{
    if uses.len() > 0 {
        let front = uses.drop_last();
        let last = uses.last();
        assert(uses[uses.len() - 1] == last);
        assert forall|i: int| 0 <= i < front.len() implies !(#[trigger] front[i] is Replace) by {
            assert(front[i] == uses[i]);
        }
        law_freed_once(raw, front);
        if front.contains(HandleUse::Release) {
            let i = choose|i: int| 0 <= i < front.len() && front[i] == HandleUse::Release;
            assert(uses[i] == HandleUse::Release);
        } else if uses.contains(HandleUse::Release) {
            let i = choose|i: int| 0 <= i < uses.len() && uses[i] == HandleUse::Release;
            if i < front.len() {
                assert(front[i] == HandleUse::Release);
            }
            let taken = Holding { handle: raw, owned: true };
            assert(freed_by_all(taken, uses) =~= seq![raw]);
        }
    }
}

/// Whatever is done with an owner, at most one handle is freed through it, and one is exactly if
/// it is let go.
pub proof fn law_freed_at_most_once(holding: Holding, uses: Seq<HandleUse>)
    requires
        holding.owned,
    ensures
        after_uses(holding, uses).owned <==> !uses.contains(HandleUse::Release),
        freed_by_all(holding, uses).len() == (if uses.contains(HandleUse::Release) {
            1nat
        } else {
            0nat
        }),
    decreases uses.len(),
{
    if uses.len() > 0 {
        let front = uses.drop_last();
        assert(uses[uses.len() - 1] == uses.last());
        law_freed_at_most_once(holding, front);
        if front.contains(HandleUse::Release) {
            let i = choose|i: int| 0 <= i < front.len() && front[i] == HandleUse::Release;
            assert(uses[i] == HandleUse::Release);
        } else if uses.contains(HandleUse::Release) {
            let i = choose|i: int| 0 <= i < uses.len() && uses[i] == HandleUse::Release;
            if i < front.len() {
                assert(front[i] == HandleUse::Release);
            }
        }
    }
}

/// What a call into MLX came to: zero is success, anything else is reported under the call's name.
pub fn check_call(code: i32, name: &str) -> (result: Result<(), String>)
    ensures
        if code == 0 {
            result is Ok
        } else {
            result matches Err(text) && text@ == name@ + " failed"@
        },
{
    if code == 0 {
        Ok(())
    } else {
        Err(crate::text::join2(name, " failed"))
    }
}

/// The size of a page that the GPU can use without a copy.
pub const PAGE: usize = 16384;

/// Whether a buffer at this address is used without a copy.
pub fn is_page_aligned(address: usize) -> (aligned: bool)
    ensures
        aligned == (address % PAGE == 0),
        aligned == (address % 16384 == 0),
{
    address % PAGE == 0
}

} // verus!
