use vstd::prelude::*;
use vstd::slice::slice_to_vec;

verus! {

/// A handle to an interned name.
#[derive(Clone, Copy, Debug, PartialEq, Eq, Structural)]
pub struct Symbol(pub usize);

/// Deduplicating storage for identifier names.
pub struct Interner {
    names: Vec<Vec<u8>>,
}

/// Byte-wise equality of two byte strings.
pub fn bytes_eq(a: &[u8], b: &[u8]) -> (res: bool)
    ensures
        res == (a@ == b@),
{
    if a.len() != b.len() {
        return false;
    }
    let mut i: usize = 0;
    while i < a.len()
        invariant
            a@.len() == b@.len(),
            i <= a@.len(),
            forall|k: int| 0 <= k < i ==> a@[k] == b@[k],
        decreases a@.len() - i,
    {
        if a[i] != b[i] {
            return false;
        }
        i = i + 1;
    }
    assert(a@ =~= b@);
    true
}

/// What interning `name` in `before` does: `sym` names it in `after`, which
/// is `before` with the name appended when it was new.
pub open spec fn interned(before: Interner, name: Seq<u8>, sym: Symbol, after: Interner) -> bool {
    &&& sym.0 < after.names().len()
    &&& after.names()[sym.0 as int] == name
    &&& before.names().contains(name) ==> after.names() == before.names()
    &&& !before.names().contains(name) ==> after.names() == before.names().push(name)
}

/// Two symbols of an interner stand for the same name exactly when they are
/// the same symbol.
pub proof fn lemma_symbols_name_apart(interner: Interner, a: Symbol, b: Symbol)
    requires
        interner.wf(),
        a.0 < interner.names().len(),
        b.0 < interner.names().len(),
    ensures
        (interner.names()[a.0 as int] == interner.names()[b.0 as int]) <==> a == b,
{
}

/// Interning a name a second time gives the symbol of the first time and
/// adds nothing.
pub proof fn lemma_intern_twice(i0: Interner, i1: Interner, i2: Interner, name: Seq<u8>, s1: Symbol, s2: Symbol)
    requires
        i1.wf(),
        interned(i0, name, s1, i1),
        interned(i1, name, s2, i2),
    ensures
        s2 == s1,
        i2.names() == i1.names(),
{
    assert(i1.names().contains(name));
}

impl Interner {
    /// The interned names, indexed by symbol.
    pub closed spec fn names(&self) -> Seq<Seq<u8>> {
        Seq::new(self.names@.len(), |i: int| self.names@[i]@)
    }

    /// No name is interned twice.
    pub open spec fn wf(&self) -> bool {
        forall|i: int, j: int|
            0 <= i < self.names().len() && 0 <= j < self.names().len() && i != j
                ==> self.names()[i] != self.names()[j]
    }

    pub fn new() -> (res: Self)
        ensures
            res.names() == Seq::<Seq<u8>>::empty(),
            res.wf(),
    {
        Interner { names: Vec::new() }
    }

    pub fn with_capacity(capacity: usize) -> (res: Self)
        ensures
            res.names() == Seq::<Seq<u8>>::empty(),
            res.wf(),
    {
        Interner { names: Vec::with_capacity(capacity) }
    }

    pub fn len(&self) -> (res: usize)
        ensures
            res == self.names().len(),
    {
        self.names.len()
    }

    /// Returns the symbol of `name`, adding the name when it is new.
    pub fn intern(&mut self, name: &[u8]) -> (sym: Symbol)
        requires
            old(self).wf(),
        ensures
            final(self).wf(),
            interned(*old(self), name@, sym, *final(self)),
    {
        let mut i: usize = 0;
        while i < self.names.len()
            invariant
                i <= self.names@.len(),
                self.wf(),
                self.names() == old(self).names(),
                forall|k: int| 0 <= k < i ==> self.names()[k] != name@,
            decreases self.names@.len() - i,
        {
            if bytes_eq(self.names[i].as_slice(), name) {
                assert(self.names()[i as int] == name@);
                return Symbol(i);
            }
            i = i + 1;
        }
        let ghost before = self.names();
        assert(!before.contains(name@));
        self.names.push(slice_to_vec(name));
        assert(self.names() =~= before.push(name@));
        Symbol(i)
    }

    /// The name behind `sym`.
    pub fn lookup(&self, sym: Symbol) -> (res: &[u8])
        requires
            sym.0 < self.names().len(),
        ensures
            res@ == self.names()[sym.0 as int],
    {
        self.names[sym.0].as_slice()
    }
}

} // verus!
