use vstd::prelude::*;

verus! {

/// One of the four proposition letters an expression may use.
#[derive(PartialEq, Eq, Structural, Clone, Copy, Debug, Hash)]
pub enum PropositionIdentifier {
    A,
    B,
    C,
    D,
}

/// The letter a source character names, case-insensitively, if it names one.
pub open spec fn proposition_of(c: char) -> Option<PropositionIdentifier> {
    if c == 'a' || c == 'A' {
        Some(PropositionIdentifier::A)
    } else if c == 'b' || c == 'B' {
        Some(PropositionIdentifier::B)
    } else if c == 'c' || c == 'C' {
        Some(PropositionIdentifier::C)
    } else if c == 'd' || c == 'D' {
        Some(PropositionIdentifier::D)
    } else {
        None
    }
}

/// Whether some character of `s` names the proposition `id`.
pub open spec fn mentions(s: Seq<char>, id: PropositionIdentifier) -> bool {
    exists|j: int| 0 <= j < s.len() && proposition_of(s[j]) == Some(id)
}

/// A permutation is a packed assignment that holds the i-th proposition in bit i
/// (A in bit 0 up to D in bit 3). This is the value it gives `id`.
pub open spec fn perm_bit(p: u8, id: PropositionIdentifier) -> bool {
    match id {
        PropositionIdentifier::A => p & 1u8 != 0,
        PropositionIdentifier::B => p & 2u8 != 0,
        PropositionIdentifier::C => p & 4u8 != 0,
        PropositionIdentifier::D => p & 8u8 != 0,
    }
}

/// The number of flags set among the first four of `keys`.
pub open spec fn key_count(keys: Seq<bool>) -> nat {
    (if keys[0] { 1nat } else { 0nat }) + (if keys[1] { 1nat } else { 0nat }) + (if keys[2] {
        1nat
    } else {
        0nat
    }) + (if keys[3] { 1nat } else { 0nat })
}

/// The key set of an expression's text: one flag per identifier, in canonical order, set
/// when the text mentions it.
pub open spec fn mentioned(s: Seq<char>) -> Seq<bool> {
    Seq::new(4, |i: int| mentions(s, PropositionIdentifier::at(i as nat)))
}

/// The key set is exactly the first `n` identifiers of A, B, C, D.
pub open spec fn first_keys(keys: Seq<bool>, n: nat) -> bool {
    forall|i: int| 0 <= i < 4 ==> (#[trigger] keys[i] <==> i < n)
}

/// The key set is {A}, {A, B}, {A, B, C} or {A, B, C, D}.
pub open spec fn contiguous(keys: Seq<bool>) -> bool {
    first_keys(keys, 1) || first_keys(keys, 2) || first_keys(keys, 3) || first_keys(keys, 4)
}

/// A contiguous key set holds one to four identifiers.
pub proof fn lemma_contiguous_count(keys: Seq<bool>)
    requires
        keys.len() == 4,
        contiguous(keys),
    ensures
        1 <= key_count(keys) <= 4,
{
    assert(keys[0]);
}

impl PropositionIdentifier {
    /// The identifier's position in the canonical order A, B, C, D.
    pub open spec fn index(self) -> nat {
        match self {
            PropositionIdentifier::A => 0,
            PropositionIdentifier::B => 1,
            PropositionIdentifier::C => 2,
            PropositionIdentifier::D => 3,
        }
    }

    /// The identifier at position `i` of the canonical order.
    pub open spec fn at(i: nat) -> Self {
        if i == 0 {
            PropositionIdentifier::A
        } else if i == 1 {
            PropositionIdentifier::B
        } else if i == 2 {
            PropositionIdentifier::C
        } else {
            PropositionIdentifier::D
        }
    }

    /// The upper-case letter that renders the identifier.
    pub open spec fn letter(self) -> char {
        match self {
            PropositionIdentifier::A => 'A',
            PropositionIdentifier::B => 'B',
            PropositionIdentifier::C => 'C',
            PropositionIdentifier::D => 'D',
        }
    }

    /// The value of this proposition in a permutation (bit i for the i-th of A, B, C, D).
    pub fn mask(&self, permutation: u8) -> (r: bool)
        ensures
            r == perm_bit(permutation, *self),
    {
        match self {
            PropositionIdentifier::A => permutation & 0b0001 != 0,
            PropositionIdentifier::B => permutation & 0b0010 != 0,
            PropositionIdentifier::C => permutation & 0b0100 != 0,
            PropositionIdentifier::D => permutation & 0b1000 != 0,
        }
    }

    /// The identifier a letter names, in either case.
    pub fn from_char(c: char) -> (r: Self)
        requires
            proposition_of(c) is Some,
        ensures
            proposition_of(c) == Some(r),
    {
        match c {
            'a' | 'A' => PropositionIdentifier::A,
            'b' | 'B' => PropositionIdentifier::B,
            'c' | 'C' => PropositionIdentifier::C,
            _ => PropositionIdentifier::D,
        }
    }

    /// The identifier at position `i` of the canonical order A, B, C, D.
    pub fn from_int(i: u8) -> (r: Self)
        requires
            i < 4,
        ensures
            r.index() == i,
            r == Self::at(i as nat),
    {
        match i {
            0 => PropositionIdentifier::A,
            1 => PropositionIdentifier::B,
            2 => PropositionIdentifier::C,
            _ => PropositionIdentifier::D,
        }
    }

    /// The upper-case letter of the identifier.
    pub fn to_char(&self) -> (r: char)
        ensures
            r == self.letter(),
    {
        match self {
            PropositionIdentifier::A => 'A',
            PropositionIdentifier::B => 'B',
            PropositionIdentifier::C => 'C',
            PropositionIdentifier::D => 'D',
        }
    }
}

/// The propositions an expression uses, each with its current truth value, if one was
/// assigned. Slot i stands for the i-th identifier: `None` when the expression does not
/// use it, `Some(None)` while it has no value.
#[derive(Debug)]
pub struct PropositionTable {
    slots: Vec<Option<Option<bool>>>,
}

impl View for PropositionTable {
    type V = Seq<Option<Option<bool>>>;

    closed spec fn view(&self) -> Seq<Option<Option<bool>>> {
        self.slots@
    }
}

impl PropositionTable {
    /// One slot per identifier.
    pub open spec fn wf(&self) -> bool {
        self@.len() == 4
    }

    /// Whether the table holds `id`.
    pub open spec fn contains(&self, id: PropositionIdentifier) -> bool {
        self@[id.index() as int] is Some
    }

    /// The value the table holds for `id`, if it holds `id` and a value was assigned.
    pub open spec fn value_of(&self, id: PropositionIdentifier) -> Option<bool> {
        match self@[id.index() as int] {
            Some(v) => v,
            None => None,
        }
    }

    /// The table's key set, as one flag per identifier in canonical order.
    pub open spec fn keys(&self) -> Seq<bool> {
        Seq::new(4, |i: int| self@[i] is Some)
    }

    /// The number of identifiers the table holds.
    pub open spec fn size(&self) -> nat {
        key_count(self.keys())
    }

    fn new(slots: Vec<Option<Option<bool>>>) -> (r: Self)
        requires
            slots@.len() == 4,
        ensures
            r@ == slots@,
            r.wf(),
    {
        PropositionTable { slots }
    }

    /// The table of the letters that occur in an expression's text, case-insensitively,
    /// with no values assigned.
    pub fn from_expression_str(expression: &str) -> (r: Self)
        ensures
            r.wf(),
            r.keys() == mentioned(expression@),
            forall|id: PropositionIdentifier| #[trigger] r.contains(id) == mentions(expression@, id),
            forall|id: PropositionIdentifier| (#[trigger] r.value_of(id)) is None,
    {
        let mut slots: Vec<Option<Option<bool>>> = vec![None, None, None, None];
        let n = expression.unicode_len();
        let mut j: usize = 0;
        while j < n
            invariant
                n == expression@.len(),
                j <= n,
                slots@.len() == 4,
                forall|i: int| 0 <= i < 4 ==> (#[trigger] slots@[i] is Some <==> mentions(
                    expression@.subrange(0, j as int),
                    PropositionIdentifier::at(i as nat),
                )),
                forall|i: int| 0 <= i < 4 ==> #[trigger] slots@[i] is None || slots@[i] == Some(
                    None::<bool>,
                ),
            decreases n - j,
        {
            let c = expression.get_char(j);
            let ghost before = expression@.subrange(0, j as int);
            let ghost after = expression@.subrange(0, j + 1);
            assert(after == before.push(c));
            if c == 'a' || c == 'A' || c == 'b' || c == 'B' || c == 'c' || c == 'C' || c == 'd' || c
                == 'D' {
                let id = PropositionIdentifier::from_char(c);
                slots.set(id.index_exec(), Some(None));
            }
            proof {
                assert forall|i: int| 0 <= i < 4 implies (#[trigger] slots@[i] is Some <==> mentions(
                    after,
                    PropositionIdentifier::at(i as nat),
                )) by {
                    let id = PropositionIdentifier::at(i as nat);
                    if mentions(before, id) {
                        let k = choose|k: int| 0 <= k < before.len() && proposition_of(before[k]) == Some(id);
                        assert(after[k] == before[k]);
                    }
                    if mentions(after, id) && !mentions(before, id) {
                        let k = choose|k: int| 0 <= k < after.len() && proposition_of(after[k]) == Some(id);
                        if k < before.len() {
                            assert(after[k] == before[k]);
                        }
                    }
                    if proposition_of(c) == Some(id) {
                        assert(after[j as int] == c);
                    }
                }
            }
            j += 1;
        }
        assert(expression@.subrange(0, n as int) == expression@);
        let r = Self::new(slots);
        assert forall|id: PropositionIdentifier| #[trigger] r.contains(id) == mentions(expression@, id) by {
            assert(PropositionIdentifier::at(id.index()) == id);
        }
        assert(r.keys() =~= mentioned(expression@));
        r
    }

    /// The value assigned to `identifier`, or `None` when the table does not hold it or no
    /// value was assigned yet.
    pub fn get_value(&self, identifier: &PropositionIdentifier) -> (r: Option<bool>)
        requires
            self.wf(),
        ensures
            r == self.value_of(*identifier),
    {
        match self.slots[identifier.index_exec()] {
            Some(v) => v,
            None => None,
        }
    }

    /// Gives every identifier the table holds its value in `permutation` (bit i for the
    /// i-th of A, B, C, D). The key set stays as it is.
    pub fn set_all(&mut self, permutation: u8)
        requires
            old(self).wf(),
        ensures
            final(self).wf(),
            final(self).keys() == old(self).keys(),
            forall|id: PropositionIdentifier| #[trigger]
                final(self).contains(id) == old(self).contains(id),
            forall|id: PropositionIdentifier| #[trigger]
                final(self).value_of(id) == if old(self).contains(id) {
                    Some(perm_bit(permutation, id))
                } else {
                    None
                },
    {
        let mut i: u8 = 0;
        while i < 4
            invariant
                i <= 4,
                self.wf(),
                forall|k: int| 0 <= k < 4 ==> (#[trigger] self@[k] is Some <==> old(self)@[k] is Some),
                forall|k: int|
                    0 <= k < i && #[trigger] self@[k] is Some ==> self@[k]->0 == Some(
                        perm_bit(permutation, PropositionIdentifier::at(k as nat)),
                    ),
                forall|k: int| i <= k < 4 ==> #[trigger] self@[k] == old(self)@[k],
            decreases 4 - i,
        {
            if self.slots[i as usize].is_some() {
                let id = PropositionIdentifier::from_int(i);
                let v = id.mask(permutation);
                self.slots.set(i as usize, Some(Some(v)));
            }
            i += 1;
        }
        assert(self.keys() =~= old(self).keys());
        assert forall|id: PropositionIdentifier| #[trigger]
            self.value_of(id) == if old(self).contains(id) {
                Some(perm_bit(permutation, id))
            } else {
                None
            } by {
            assert(PropositionIdentifier::at(id.index()) == id);
        }
    }

    /// The number of identifiers the table holds.
    pub fn count(&self) -> (r: u8)
        requires
            self.wf(),
        ensures
            r == self.size(),
    {
        let mut n: u8 = 0;
        if self.slots[0].is_some() {
            n += 1;
        }
        if self.slots[1].is_some() {
            n += 1;
        }
        if self.slots[2].is_some() {
            n += 1;
        }
        if self.slots[3].is_some() {
            n += 1;
        }
        n
    }

    /// Whether the table holds exactly {A}, {A, B}, {A, B, C} or {A, B, C, D}: the letters
    /// were introduced without a gap, starting from A.
    pub fn validate(&self) -> (r: bool)
        requires
            self.wf(),
        ensures
            r == contiguous(self.keys()),
    {
        let has_a = self.slots[0].is_some();
        let has_b = self.slots[1].is_some();
        let has_c = self.slots[2].is_some();
        let has_d = self.slots[3].is_some();
        let r = match self.count() {
            1 => has_a,
            2 => has_a && has_b,
            3 => has_a && has_b && has_c,
            4 => has_a && has_b && has_c && has_d,
            _ => false,
        };
        let ghost k = self.keys();
        assert(k[0] == has_a && k[1] == has_b && k[2] == has_c && k[3] == has_d);
        assert(r ==> contiguous(k));
        proof {
            if first_keys(k, 1) {
                assert(k[0] && !k[1] && !k[2] && !k[3]);
            }
            if first_keys(k, 2) {
                assert(k[0] && k[1] && !k[2] && !k[3]);
            }
            if first_keys(k, 3) {
                assert(k[0] && k[1] && k[2] && !k[3]);
            }
            if first_keys(k, 4) {
                assert(k[0] && k[1] && k[2] && k[3]);
            }
        }
        r
    }
}

impl PropositionIdentifier {
    /// The identifier's position in the canonical order.
    fn index_exec(&self) -> (r: usize)
        ensures
            r == self.index(),
    {
        match self {
            PropositionIdentifier::A => 0,
            PropositionIdentifier::B => 1,
            PropositionIdentifier::C => 2,
            PropositionIdentifier::D => 3,
        }
    }
}

} // verus!
