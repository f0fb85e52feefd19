use vstd::prelude::*;

verus! {

/// One cell of the grid: the digits (1 to 9) still possible there, and whether
/// its digit, once it is the only one left, has been removed from its peers.
#[derive(Clone, Copy)]
pub struct Field {
    possible: [bool; 9],
    projected: bool,
}

/// Number of digits in `1..=n` that the field still allows.
pub open spec fn count_upto(f: Field, n: int) -> nat
    decreases n,
{
    if n <= 0 {
        0
    } else {
        count_upto(f, n - 1) + if f.has(n) { 1nat } else { 0nat }
    }
}

/// Fields with the same candidates have the same count.
proof fn lemma_count_same(a: Field, b: Field, n: int)
    requires
        a.same_cands(b),
    ensures
        count_upto(a, n) == count_upto(b, n),
    decreases n,
{
    if n > 0 {
        assert(a.has(n) == b.has(n));
        lemma_count_same(a, b, n - 1);
    }
}

/// Narrowing never raises the count.
proof fn lemma_count_narrow(a: Field, b: Field, n: int)
    requires
        b.narrows(a),
    ensures
        count_upto(b, n) <= count_upto(a, n),
    decreases n,
{
    if n > 0 {
        assert(b.has(n) ==> a.has(n));
        lemma_count_narrow(a, b, n - 1);
    }
}

/// Narrowing that drops `d` lowers the count.
proof fn lemma_count_narrow_strict(a: Field, b: Field, n: int, d: int)
    requires
        b.narrows(a),
        a.has(d),
        !b.has(d),
        d <= n,
    ensures
        count_upto(b, n) < count_upto(a, n),
    decreases n,
{
    assert(b.has(n) ==> a.has(n));
    if n == d {
        lemma_count_narrow(a, b, n - 1);
    } else {
        lemma_count_narrow_strict(a, b, n - 1, d);
    }
}

impl Field {
    /// The candidate flags: entry `d - 1` stands for digit `d`.
    pub closed spec fn cands(&self) -> Seq<bool> {
        self.possible@
    }

    /// Whether the projection of this field's digit has been done.
    pub closed spec fn is_projected(&self) -> bool {
        self.projected
    }

    /// Digit `d` is still a candidate.
    pub open spec fn has(&self, d: int) -> bool {
        1 <= d <= 9 && self.cands()[d - 1]
    }

    /// Some digit that the field allows (its digit, when it has exactly one).
    pub open spec fn value(&self) -> int {
        choose|d: int| self.has(d)
    }

    /// Some digit is left.
    pub open spec fn nonempty(&self) -> bool {
        exists|d: int| self.has(d)
    }

    /// Exactly one digit is left.
    pub open spec fn is_single(&self) -> bool {
        self.has(self.value()) && forall|e: int| #[trigger] self.has(e) ==> e == self.value()
    }

    /// Every digit is a candidate.
    pub open spec fn is_full(&self) -> bool {
        forall|d: int| 1 <= d <= 9 ==> #[trigger] self.has(d)
    }

    /// Number of candidates.
    pub open spec fn size(&self) -> nat {
        count_upto(*self, 9)
    }

    /// The candidates of `self` are among those of `other`.
    pub open spec fn narrows(&self, other: Field) -> bool {
        forall|d: int| #[trigger] self.has(d) ==> other.has(d)
    }

    /// Both fields allow the same digits.
    pub open spec fn same_cands(&self, other: Field) -> bool {
        forall|d: int| #[trigger] self.has(d) == other.has(d)
    }

    /// `self` is `old` with `v` removed, unless `old` has a single digit.
    pub open spec fn removed_from(&self, old: Field, v: int) -> bool {
        &&& forall|d: int| #[trigger] self.has(d) == (old.has(d) && (d != v || old.is_single()))
        &&& self.is_projected() == old.is_projected()
    }

    /// Removing a digit twice is removing it once.
    pub proof fn lemma_removed_twice(a: Field, b: Field, c: Field, v: int)
        requires
            b.removed_from(a, v),
            c.removed_from(b, v),
        ensures
            c.removed_from(a, v),
    {
        if a.is_single() {
            assert(b.same_cands(a));
            Field::lemma_same_cands(b, a);
        }
    }

    /// A field keeps its single digit under narrowing, as long as some
    /// candidate is left.
    pub proof fn lemma_narrow_single(a: Field, b: Field)
        requires
            a.is_single(),
            b.narrows(a),
            b.nonempty(),
        ensures
            b.is_single(),
            b.value() == a.value(),
    {
        assert(b.has(a.value()) || exists|d: int| b.has(d));
        let d = choose|d: int| b.has(d);
        assert(a.has(d));
        assert(b.has(b.value()));
        assert(a.has(b.value()));
    }

    /// Fields with the same candidates agree on being single and on their value.
    pub proof fn lemma_same_cands(a: Field, b: Field)
        requires
            a.same_cands(b),
        ensures
            a.is_single() == b.is_single(),
            a.is_single() ==> a.value() == b.value(),
            a.size() == b.size(),
    {
        if a.is_single() {
            assert(b.has(a.value()));
            Field::lemma_narrow_single(a, b);
        }
        if b.is_single() {
            assert(a.has(b.value()));
            Field::lemma_narrow_single(b, a);
        }
        lemma_count_same(a, b, 9);
    }

    /// Narrowing never adds candidates, and removing one lowers the count.
    pub proof fn lemma_narrow_size(a: Field, b: Field)
        requires
            b.narrows(a),
        ensures
            b.size() <= a.size(),
            (exists|d: int| a.has(d) && !b.has(d)) ==> b.size() < a.size(),
    {
        lemma_count_narrow(a, b, 9);
        if exists|d: int| a.has(d) && !b.has(d) {
            let d = choose|d: int| a.has(d) && !b.has(d);
            lemma_count_narrow_strict(a, b, 9, d);
        }
    }

    /// A field that allows every digit and is not projected.
    pub fn new() -> (r: Field)
        ensures
            r.is_full(),
            !r.is_projected(),
    {
        Field { possible: [true, true, true, true, true, true, true, true, true], projected: false }
    }

    /// Whether exactly one digit is left.
    pub fn number_found(&self) -> (r: bool)
        ensures
            r == self.is_single(),
    {
        let mut found: Option<usize> = None;
        let mut i: usize = 0;
        while i < 9
            invariant
                i <= 9,
                self.cands().len() == 9,
                match found {
                    None => forall|j: int| 0 <= j < i ==> !self.cands()[j],
                    Some(k) => k < i && self.cands()[k as int] && forall|j: int|
                        0 <= j < i && self.cands()[j] ==> j == k,
                },
            decreases 9 - i,
        {
            if self.possible[i] {
                if found.is_some() {
                    let k = found.unwrap();
                    proof {
                        assert(self.has(k + 1));
                        assert(self.has(i + 1));
                    }
                    return false;
                }
                found = Some(i);
            }
            i += 1;
        }
        match found {
            None => {
                proof {
                    if self.has(self.value()) {
                        assert(self.cands()[self.value() - 1]);
                    }
                }
                false
            },
            Some(k) => {
                proof {
                    assert(self.has(k + 1));
                    assert(self.has(self.value()));
                    assert forall|e: int| #[trigger] self.has(e) implies e == self.value() by {
                        assert(self.cands()[e - 1]);
                    }
                }
                true
            },
        }
    }

    /// Makes `x` the only digit left.
    pub fn set_number(&mut self, x: usize)
        requires
            1 <= x <= 9,
        ensures
            forall|d: int| #[trigger] final(self).has(d) == (d == x),
            final(self).is_single(),
            final(self).value() == x,
            final(self).is_projected() == old(self).is_projected(),
    {
        let mut i: usize = 0;
        while i < 9
            invariant
                i <= 9,
                1 <= x <= 9,
                self.cands().len() == 9,
                self.projected == old(self).projected,
                forall|j: int| 0 <= j < i ==> self.cands()[j] == (j == x - 1),
            decreases 9 - i,
        {
            self.possible[i] = i == x - 1;
            i += 1;
        }
        proof {
            assert(self.has(x as int));
            assert(self.has(self.value()));
        }
    }

    /// The only digit left.
    pub fn get_number(&self) -> (r: usize)
        requires
            self.is_single(),
        ensures
            r == self.value(),
            1 <= r <= 9,
    {
        let mut i: usize = 0;
        while i < 9
            invariant
                i <= 9,
                self.is_single(),
                self.cands().len() == 9,
                forall|j: int| 0 <= j < i ==> !self.cands()[j],
            decreases 9 - i,
        {
            if self.possible[i] {
                proof {
                    assert(self.has(i + 1));
                }
                return i + 1;
            }
            i += 1;
        }
        proof {
            assert(self.cands()[self.value() - 1]);
        }
        0
    }

    /// Removes `x` from a field with more than one candidate; a field with one
    /// candidate is left alone. Returns whether a candidate was removed.
    pub fn cannot_be(&mut self, x: usize) -> (r: bool)
        requires
            1 <= x <= 9,
        ensures
            r == (!old(self).is_single() && old(self).has(x as int)),
            forall|d: int| #[trigger] final(self).has(d) == (old(self).has(d) && !(r && d == x)),
            !r ==> *final(self) == *old(self),
            final(self).is_projected() == old(self).is_projected(),
    {
        if self.number_found() {
            return false;
        }
        if self.possible[x - 1] {
            self.possible[x - 1] = false;
            true
        } else {
            false
        }
    }

    /// Allows every digit again.
    pub fn reset_possibilities(&mut self)
        ensures
            final(self).is_full(),
            final(self).is_projected() == old(self).is_projected(),
    {
        let mut i: usize = 0;
        while i < 9
            invariant
                i <= 9,
                self.cands().len() == 9,
                self.projected == old(self).projected,
                forall|j: int| 0 <= j < i ==> self.cands()[j],
            decreases 9 - i,
        {
            self.possible[i] = true;
            i += 1;
        }
    }

    /// Steps to the next digit to try: an open field takes 1, a field holding
    /// a digit below 9 takes the next one, and a field holding 9 is reset to
    /// every digit, which returns false.
    pub fn set_next_number(&mut self) -> (r: bool)
        ensures
            r == !(old(self).is_single() && old(self).value() == 9),
            r ==> final(self).is_single(),
            r && !old(self).is_single() ==> final(self).value() == 1,
            r && old(self).is_single() ==> final(self).value() == old(self).value() + 1,
            !r ==> final(self).is_full(),
            final(self).is_projected() == old(self).is_projected(),
    {
        if !self.number_found() {
            self.set_number(1);
        } else {
            let number = self.get_number();
            if number == 9 {
                self.reset_possibilities();
                return false;
            }
            self.set_number(number + 1);
        }
        true
    }

    /// Whether `d` is still a candidate.
    pub fn allows(&self, d: usize) -> (r: bool)
        requires
            1 <= d <= 9,
        ensures
            r == self.has(d as int),
    {
        self.possible[d - 1]
    }

    /// Whether the projection of this field's digit has been done.
    pub fn projected(&self) -> (r: bool)
        ensures
            r == self.is_projected(),
    {
        self.projected
    }

    /// Records that the projection of this field's digit has been done.
    pub(crate) fn mark_projected(&mut self)
        ensures
            final(self).is_projected(),
            final(self).same_cands(*old(self)),
    {
        self.projected = true;
    }
}

} // verus!
