//! Process-scoped string interning.
//!
//! Every identifier in the data model is a [`Str`]: a small stable index
//! into an explicit, append-only [`SymbolTable`].  Two symbols of one
//! table are equal exactly when their underlying texts are equal, so all
//! identity comparisons are cheap integer comparisons.

use vstd::prelude::*;

verus! {

/// An interned string: a stable index into a [`SymbolTable`].
///
/// Symbols are only meaningful relative to the table that produced them;
/// the table is append-only, so a symbol stays valid for the lifetime of
/// its table.
#[derive(Clone, Copy, PartialEq, Eq, Structural, Debug)]
pub struct Str(pub u32);

impl Str {
    /// The index of this symbol's text in its table.
    pub open spec fn idx(self) -> int {
        self.0 as int
    }

    /// Interns `text` in `table` and returns its symbol.
    ///
    /// Repeated interning of equal text yields the same symbol; distinct
    /// texts always yield distinct symbols.
    pub fn new(table: &mut SymbolTable, text: Vec<u8>) -> (s: Str)
        requires
            old(table).wf(),
            old(table)@.len() < u32::MAX,
        ensures
            final(table).wf(),
            (final(table)@, s.idx()) == spec_intern(old(table)@, text@),
            0 <= s.idx() < final(table)@.len(),
            final(table)@[s.idx()] == text@,
    {
        table.intern(text)
    }
}

/// True when no two entries of `c` hold the same text.
pub open spec fn distinct_texts(c: Seq<Seq<u8>>) -> bool {
    forall|i: int, j: int| 0 <= i < j < c.len() ==> c[i] != c[j]
}

/// True when some entry of `c` is exactly `t`.
pub open spec fn contains_text(c: Seq<Seq<u8>>, t: Seq<u8>) -> bool {
    exists|i: int| 0 <= i < c.len() && c[i] == t
}

/// An index of `c` holding `t` (unique when `distinct_texts(c)` holds).
pub open spec fn text_index(c: Seq<Seq<u8>>, t: Seq<u8>) -> int {
    choose|i: int| 0 <= i < c.len() && c[i] == t
}

/// What interning does to a table's contents: look the text up, and
/// append it only if it is new.  Returns the new contents and the index
/// of the interned text.
pub open spec fn spec_intern(c: Seq<Seq<u8>>, t: Seq<u8>) -> (Seq<Seq<u8>>, int) {
    if contains_text(c, t) {
        (c, text_index(c, t))
    } else {
        (c.push(t), c.len() as int)
    }
}

/// The explicit interning registry.  Appending is the only mutation;
/// entries are never reclaimed or reordered.
pub struct SymbolTable {
    entries: Vec<Vec<u8>>,
}

impl SymbolTable {
    /// The table's contents: the interned texts, in interning order.
    pub closed spec fn view(&self) -> Seq<Seq<u8>> {
        self.entries@.map_values(|v: Vec<u8>| v@)
    }

    /// Well-formed tables never hold the same text twice.
    pub open spec fn wf(&self) -> bool {
        distinct_texts(self@)
    }

    /// True when `s` was produced by this table.
    pub open spec fn contains_sym(&self, s: Str) -> bool {
        0 <= s.idx() < self@.len()
    }

    /// Creates an empty table.
    pub fn new() -> (t: SymbolTable)
        ensures
            t.wf(),
            t@ === Seq::<Seq<u8>>::empty(),
    {
        let t = SymbolTable { entries: Vec::new() };
        proof {
            assert(t@ =~= Seq::<Seq<u8>>::empty());
        }
        t
    }

    /// The number of interned texts.
    pub fn len(&self) -> (n: usize)
        ensures
            n == self@.len(),
    {
        self.entries.len()
    }

    /// Interns `text`: returns the symbol of the existing entry with the
    /// same text, or appends `text` and returns its fresh symbol.
    pub fn intern(&mut self, text: Vec<u8>) -> (s: Str)
        requires
            old(self).wf(),
            old(self)@.len() < u32::MAX,
        ensures
            final(self).wf(),
            (final(self)@, s.idx()) == spec_intern(old(self)@, text@),
            0 <= s.idx() < final(self)@.len(),
            final(self)@[s.idx()] == text@,
            old(self)@.len() <= final(self)@.len(),
            forall|i: int| 0 <= i < old(self)@.len() ==> final(self)@[i] == old(self)@[i],
    {
        let n = self.entries.len();
        let mut i: usize = 0;
        while i < n
            invariant
                i <= n,
                n == self@.len(),
                n < u32::MAX,
                self.wf(),
                *self == *old(self),
                forall|j: int| 0 <= j < i ==> self@[j] != text@,
            decreases n - i,
        {
            if bytes_equal(&self.entries[i], &text) {
                proof {
                    assert(self@[i as int] == text@);
                    assert(contains_text(self@, text@));
                    let w = text_index(self@, text@);
                    assert(0 <= w < self@.len() && self@[w] == text@);
                    assert(w == i as int) by {
                        if w != i as int {
                            assert(self@[w] == self@[i as int]);
                        }
                    }
                }
                return Str(i as u32);
            }
            i += 1;
        }
        proof {
            assert(!contains_text(self@, text@));
        }
        self.entries.push(text);
        proof {
            assert(self@ =~= old(self)@.push(text@));
            assert(self@[n as int] == text@);
            assert forall|p: int, q: int| 0 <= p < q < self@.len() implies self@[p] != self@[q] by {
                if q == n as int {
                    assert(self@[p] == old(self)@[p]);
                    assert(!contains_text(old(self)@, text@));
                    if self@[p] == text@ {
                        assert(old(self)@[p] == text@);
                    }
                } else {
                    assert(self@[p] == old(self)@[p]);
                    assert(self@[q] == old(self)@[q]);
                }
            }
        }
        Str(n as u32)
    }

    /// The text of a symbol of this table.
    pub fn resolve(&self, s: Str) -> (t: &Vec<u8>)
        requires
            self.contains_sym(s),
        ensures
            t@ == self@[s.idx()],
    {
        proof {
            assert(self@[s.idx()] == self.entries@[s.idx()]@);
        }
        &self.entries[s.0 as usize]
    }
}

/// Exact byte-for-byte comparison of two byte vectors.
pub fn bytes_equal(a: &Vec<u8>, b: &Vec<u8>) -> (r: bool)
    ensures
        r == (a@ == b@),
{
    if a.len() != b.len() {
        proof {
            assert(a@ != b@) by {
                if a@ == b@ {
                    assert(a@.len() == b@.len());
                }
            }
        }
        return false;
    }
    let n = a.len();
    let mut i: usize = 0;
    while i < n
        invariant
            i <= n,
            n == a@.len(),
            a@.len() == b@.len(),
            forall|j: int| 0 <= j < i ==> a@[j] == b@[j],
        decreases n - i,
    {
        if a[i] != b[i] {
            return false;
        }
        i += 1;
    }
    proof {
        assert(a@ =~= b@);
    }
    true
}

/// Interning is idempotent: interning a text a second time returns the
/// same symbol and leaves the table unchanged.
pub proof fn lemma_intern_idempotent(c: Seq<Seq<u8>>, t: Seq<u8>)
    ensures
        ({
            let (c1, i1) = spec_intern(c, t);
            let (c2, i2) = spec_intern(c1, t);
            c2 == c1 && i2 == i1
        }),
{
    let (c1, i1) = spec_intern(c, t);
    if contains_text(c, t) {
        assert(c1 == c);
    } else {
        assert(c1 == c.push(t));
        assert(c1[c.len() as int] == t);
        assert(contains_text(c1, t));
        let w = text_index(c1, t);
        assert(0 <= w < c1.len() && c1[w] == t);
        if w < c.len() {
            assert(c[w] == t);
            assert(contains_text(c, t));
        }
        assert(w == c.len() as int);
    }
}

/// Interning distinguishes texts: after interning `t1` and then `t2`
/// into a well-formed table, the two symbols are equal exactly when the
/// two texts are equal.  Swapping `t1` and `t2` gives the same statement
/// for the opposite interning order, so symbol identity is independent
/// of the order in which texts arrive.
pub proof fn lemma_intern_distinguishes(c: Seq<Seq<u8>>, t1: Seq<u8>, t2: Seq<u8>)
    requires
        distinct_texts(c),
    ensures
        ({
            let (c1, i1) = spec_intern(c, t1);
            let (c2, i2) = spec_intern(c1, t2);
            (i1 == i2) <==> (t1 == t2)
        }),
{
    let (c1, i1) = spec_intern(c, t1);
    let (c2, i2) = spec_intern(c1, t2);
    lemma_intern_preserves_distinct(c, t1);
    lemma_intern_resolves(c, t1);
    assert(0 <= i1 < c1.len() && c1[i1] == t1);
    lemma_intern_resolves(c1, t2);
    assert(c2[i2] == t2);
    if i1 == i2 {
        // Both symbols point at one entry of c2, and t1's entry survives
        // the second intern unchanged.
        if contains_text(c1, t2) {
            assert(c2 == c1);
            assert(t1 == t2);
        } else {
            assert(c2 == c1.push(t2));
            assert(i2 == c1.len() as int);
            assert(i1 < c1.len());
            assert(false);
        }
    }
    if t1 == t2 {
        lemma_intern_idempotent(c, t1);
    }
}

/// Interning preserves distinctness of the table's contents.
pub proof fn lemma_intern_preserves_distinct(c: Seq<Seq<u8>>, t: Seq<u8>)
    requires
        distinct_texts(c),
    ensures
        distinct_texts(spec_intern(c, t).0),
{
    let c1 = spec_intern(c, t).0;
    if contains_text(c, t) {
    } else {
        assert forall|p: int, q: int| 0 <= p < q < c1.len() implies c1[p] != c1[q] by {
            if q == c.len() as int {
                if c1[p] == t {
                    assert(c[p] == t);
                    assert(contains_text(c, t));
                }
            }
        }
    }
}

/// The symbol an intern returns resolves to the interned text.
pub proof fn lemma_intern_resolves(c: Seq<Seq<u8>>, t: Seq<u8>)
    ensures
        ({
            let (c1, i1) = spec_intern(c, t);
            0 <= i1 < c1.len() && c1[i1] == t
        }),
{
    if contains_text(c, t) {
        let w = text_index(c, t);
        assert(0 <= w < c.len() && c[w] == t);
    }
}

} // verus!
