use vstd::prelude::*;
use crate::expressions::formula_value;
use crate::expressions::Expression;
use crate::expressions::ParseError;
use crate::propositions::key_count;
use crate::propositions::perm_bit;
use crate::propositions::PropositionIdentifier;

verus! {

/// Why a set of literal rows was refused.
#[derive(PartialEq, Eq, Structural, Clone, Copy, Debug)]
pub enum RowError {
    /// Some row holds a character other than '0' and '1'.
    InvalidCharacter,
    /// The first row is shorter than 2 or longer than 5 characters.
    InvalidRowSize,
    /// Not all rows are as long as the first.
    InconsistentRowLength,
}

/// The number of permutations of `k` propositions.
pub open spec fn row_count(k: nat) -> nat
    decreases k,
{
    if k == 0 {
        1
    } else {
        2 * row_count((k - 1) as nat)
    }
}

/// The first `k` identifiers of A, B, C, D.
pub open spec fn first_identifiers(k: nat) -> Seq<PropositionIdentifier> {
    Seq::new(k, |i: int| PropositionIdentifier::at(i as nat))
}

/// The rows of `s` as `str::split(", ")` gives them, reading from position `i` with the
/// current row begun at `start`.
pub open spec fn split_from(s: Seq<char>, start: int, i: int) -> Seq<Seq<char>>
    decreases s.len() - i,
{
    if i + 1 >= s.len() {
        seq![s.subrange(start, s.len() as int)]
    } else if s[i] == ',' && s[i + 1] == ' ' {
        seq![s.subrange(start, i)] + split_from(s, i + 2, i + 2)
    } else {
        split_from(s, start, i + 1)
    }
}

/// The rows of a literal table: the text split at each ", ".
pub open spec fn split_rows(s: Seq<char>) -> Seq<Seq<char>> {
    split_from(s, 0, 0)
}

/// Every character of the row is '0' or '1'.
pub open spec fn is_binary(row: Seq<char>) -> bool {
    forall|j: int| 0 <= j < row.len() ==> #[trigger] row[j] == '0' || row[j] == '1'
}

/// The first fault of a set of rows, checked in this order: a character that is not a
/// bit, a first row whose length is not 2 to 5, a row whose length differs from the first.
pub open spec fn rows_error(rows: Seq<Seq<char>>) -> Option<RowError> {
    if exists|i: int| 0 <= i < rows.len() && !is_binary(#[trigger] rows[i]) {
        Some(RowError::InvalidCharacter)
    } else if rows[0].len() < 2 || rows[0].len() > 5 {
        Some(RowError::InvalidRowSize)
    } else if exists|i: int| 0 <= i < rows.len() && #[trigger] rows[i].len() != rows[0].len() {
        Some(RowError::InconsistentRowLength)
    } else {
        None
    }
}

/// The number whose bit i is the i-th character of `bits` ('1' for set).
pub open spec fn bits_value(bits: Seq<char>) -> nat
    decreases bits.len(),
{
    if bits.len() == 0 {
        0
    } else {
        (if bits[0] == '1' {
            1nat
        } else {
            0nat
        }) + 2 * bits_value(bits.drop_first())
    }
}

/// The permutation a row stands for: its characters but the last, the first one for A.
pub open spec fn row_key(row: Seq<char>) -> nat {
    bits_value(row.subrange(0, row.len() - 1))
}

/// The result a row records: its last character.
pub open spec fn row_result(row: Seq<char>) -> bool {
    row[row.len() - 1] == '1'
}

/// The result that the first `n` rows record for permutation `p`: that of the last of them
/// that stands for `p`, if any does.
pub open spec fn row_entry(rows: Seq<Seq<char>>, p: nat, n: nat) -> Option<bool>
    decreases n,
{
    if n == 0 {
        None
    } else if row_key(rows[n - 1]) == p {
        Some(row_result(rows[n - 1]))
    } else {
        row_entry(rows, p, (n - 1) as nat)
    }
}

/// The letters that permutation `p` sets among the first `n` identifiers, joined by " & ".
pub open spec fn conjunction_body(p: u8, n: nat) -> Seq<char>
    decreases n,
{
    if n == 0 {
        Seq::empty()
    } else {
        let prev = conjunction_body(p, (n - 1) as nat);
        let id = PropositionIdentifier::at((n - 1) as nat);
        if perm_bit(p, id) {
            if prev.len() == 0 {
                seq![id.letter()]
            } else {
                prev + seq![' ', '&', ' ', id.letter()]
            }
        } else {
            prev
        }
    }
}

/// The parenthesized conjunction of the letters that permutation `p` sets among the first `k`.
pub open spec fn conjunction_text(p: u8, k: nat) -> Seq<char> {
    seq!['('] + conjunction_body(p, k) + seq![')']
}

/// The conjunctions of the permutations below `n` whose result is true, joined by " | ".
pub open spec fn table_text(results: Seq<Option<bool>>, k: nat, n: nat) -> Seq<char>
    decreases n,
{
    if n == 0 {
        Seq::empty()
    } else {
        let prev = table_text(results, k, (n - 1) as nat);
        if results[n - 1] == Some(true) {
            if prev.len() == 0 {
                conjunction_text((n - 1) as u8, k)
            } else {
                prev + seq![' ', '|', ' '] + conjunction_text((n - 1) as u8, k)
            }
        } else {
            prev
        }
    }
}

/// The recorded rows among the first `n` permutations, in ascending order, each as its
/// permutation and its result.
pub open spec fn listed_rows(results: Seq<Option<bool>>, n: nat) -> Seq<(u8, bool)>
    decreases n,
{
    if n == 0 {
        Seq::empty()
    } else {
        let prev = listed_rows(results, (n - 1) as nat);
        match results[n - 1] {
            Some(v) => prev.push(((n - 1) as u8, v)),
            None => prev,
        }
    }
}

/// The views of a list of rows.
pub open spec fn row_views(rows: Seq<&str>) -> Seq<Seq<char>> {
    Seq::new(rows.len(), |i: int| rows[i]@)
}

/// A truth table: the propositions in play, in canonical order, and for each permutation
/// of them (bit i holds the i-th proposition) the recorded result, or `None` where no row
/// recorded one.
#[derive(Debug)]
pub struct TruthTable {
    propositions: Vec<PropositionIdentifier>,
    values_and_results: Vec<Option<bool>>,
}

impl TruthTable {
    /// The propositions in play.
    pub closed spec fn identifiers(&self) -> Seq<PropositionIdentifier> {
        self.propositions@
    }

    /// The result recorded for each permutation, indexed by the permutation.
    pub closed spec fn results(&self) -> Seq<Option<bool>> {
        self.values_and_results@
    }

    /// The first k identifiers are in play, k at most 4, with one slot per permutation.
    pub open spec fn wf(&self) -> bool {
        &&& self.identifiers().len() <= 4
        &&& self.identifiers() == first_identifiers(self.identifiers().len())
        &&& self.results().len() == row_count(self.identifiers().len())
    }

    /// Every permutation has a result.
    pub open spec fn is_complete(&self) -> bool {
        forall|p: int| 0 <= p < self.results().len() ==> (#[trigger] self.results()[p]) is Some
    }

    fn new(propositions: Vec<PropositionIdentifier>, values_and_results: Vec<Option<bool>>) -> (r: Self)
        ensures
            r.identifiers() == propositions@,
            r.results() == values_and_results@,
    {
        TruthTable { propositions, values_and_results }
    }
}

/// A nibble is the sum of its four bits.
pub(crate) proof fn lemma_nibble_bits(x: u8)
    requires
        x < 16,
    ensures
        x as nat == (if x & 1u8 != 0 { 1nat } else { 0nat }) + (if x & 2u8 != 0 { 2nat } else {
            0nat
        }) + (if x & 4u8 != 0 { 4nat } else { 0nat }) + (if x & 8u8 != 0 { 8nat } else { 0nat }),
{
    assert(x == (x & 1u8) + (x & 2u8) + (x & 4u8) + (x & 8u8)) by (bit_vector)
        requires
            x < 16,
    ;
    assert((x & 1u8 == 0 || x & 1u8 == 1) && (x & 2u8 == 0 || x & 2u8 == 2) && (x & 4u8 == 0 || x
        & 4u8 == 4) && (x & 8u8 == 0 || x & 8u8 == 8)) by (bit_vector);
}

/// A permutation below 16 whose bits match a row of `m` bits, and is clear above them, is
/// the value of those bits, and is below the number of permutations of `m` propositions.
proof fn lemma_permutation_of_bits(x: u8, bits: Seq<char>)
    requires
        x < 16,
        bits.len() <= 4,
        forall|i: int|
            0 <= i < 4 ==> #[trigger] perm_bit(x, PropositionIdentifier::at(i as nat)) == (i
                < bits.len() && bits[i] == '1'),
    ensures
        x as nat == bits_value(bits),
        bits_value(bits) < row_count(bits.len()),
{
    lemma_nibble_bits(x);
    assert(perm_bit(x, PropositionIdentifier::at(0int as nat)) == (0 < bits.len() && bits[0] == '1'));
    assert(perm_bit(x, PropositionIdentifier::at(1int as nat)) == (1 < bits.len() && bits[1] == '1'));
    assert(perm_bit(x, PropositionIdentifier::at(2int as nat)) == (2 < bits.len() && bits[2] == '1'));
    assert(perm_bit(x, PropositionIdentifier::at(3int as nat)) == (3 < bits.len() && bits[3] == '1'));
    reveal_with_fuel(row_count, 5);
    reveal_with_fuel(bits_value, 5);
    if bits.len() >= 1 {
        let b1 = bits.drop_first();
        if b1.len() >= 1 {
            assert(b1[0] == bits[1]);
            let b2 = b1.drop_first();
            if b2.len() >= 1 {
                assert(b2[0] == bits[2]);
                let b3 = b2.drop_first();
                if b3.len() >= 1 {
                    assert(b3[0] == bits[3]);
                    assert(b3.drop_first().len() == 0);
                }
            }
        }
    }
}

/// The number of permutations of `k` propositions.
fn permutation_count(k: u8) -> (r: usize)
    requires
        k <= 4,
    ensures
        r == row_count(k as nat),
        r <= 16,
{
    proof {
        reveal_with_fuel(row_count, 5);
    }
    match k {
        0 => 1,
        1 => 2,
        2 => 4,
        3 => 8,
        _ => 16,
    }
}

/// The first `proposition_count` identifiers of A, B, C, D, in order.
fn get_propositions(proposition_count: u8) -> (r: Vec<PropositionIdentifier>)
    requires
        proposition_count <= 4,
    ensures
        r@ == first_identifiers(proposition_count as nat),
{
    let mut propositions: Vec<PropositionIdentifier> = Vec::new();
    let mut i: u8 = 0;
    while i < proposition_count
        invariant
            i <= proposition_count <= 4,
            propositions@ == first_identifiers(i as nat),
        decreases proposition_count - i,
    {
        propositions.push(PropositionIdentifier::from_int(i));
        i += 1;
        assert(propositions@ =~= first_identifiers(i as nat));
    }
    propositions
}

/// The permutations of `bits` propositions, in ascending order: 0 up to 2^bits - 1.
pub fn get_bit_permutations(bits: u8) -> (r: Vec<u8>)
    requires
        bits <= 4,
    ensures
        r@.len() == row_count(bits as nat),
        forall|i: int| 0 <= i < r@.len() ==> #[trigger] r@[i] == i as u8,
{
    let n = permutation_count(bits);
    let mut permutations: Vec<u8> = Vec::new();
    let mut i: usize = 0;
    while i < n
        invariant
            n == row_count(bits as nat),
            n <= 16,
            i <= n,
            permutations@.len() == i,
            forall|j: int| 0 <= j < i ==> #[trigger] permutations@[j] == j as u8,
        decreases n - i,
    {
        permutations.push(i as u8);
        i += 1;
    }
    permutations
}

/// The permutation a row stands for: its i-th column (all but the last) in bit i, so the
/// first column, A, in bit 0; the bits of absent propositions clear.
pub fn decode_permutation_str(row: &str) -> (r: u8)
    requires
        is_binary(row@),
        2 <= row@.len() <= 5,
    ensures
        r < 16,
        r as nat == row_key(row@),
        row_key(row@) < row_count((row@.len() - 1) as nat),
        forall|i: int|
            0 <= i < 4 ==> #[trigger] perm_bit(r, PropositionIdentifier::at(i as nat)) == (i
                < row@.len() - 1 && row@[i] == '1'),
{
    let proposition_count = row.unicode_len() - 1;
    let mut permutation: u8 = 0;
    assert(0u8 & 8u8 == 0 && 0u8 & 4u8 == 0 && 0u8 & 2u8 == 0 && 0u8 & 1u8 == 0) by (bit_vector);
    let mut i: usize = 0;
    while i < proposition_count
        invariant
            proposition_count == row@.len() - 1,
            proposition_count <= 4,
            i <= proposition_count,
            permutation < 16,
            forall|j: int|
                0 <= j < 4 ==> #[trigger] perm_bit(permutation, PropositionIdentifier::at(j as nat)) == (j
                    < i && row@[j] == '1'),
        decreases proposition_count - i,
    {
        let ghost before = permutation;
        if row.get_char(i) == '1' {
            let old_permutation = permutation;
            if i == 0 {
                permutation = permutation | 1;
            } else if i == 1 {
                permutation = permutation | 2;
            } else if i == 2 {
                permutation = permutation | 4;
            } else {
                permutation = permutation | 8;
            }
            assert(((old_permutation | 8u8) & 8u8 != 0) && ((old_permutation | 8u8) & 4u8) == (old_permutation & 4u8)
                && ((old_permutation | 8u8) & 2u8) == (old_permutation & 2u8) && ((old_permutation | 8u8) & 1u8) == (
            old_permutation & 1u8)) by (bit_vector);
            assert(((old_permutation | 4u8) & 4u8 != 0) && ((old_permutation | 4u8) & 8u8) == (old_permutation & 8u8)
                && ((old_permutation | 4u8) & 2u8) == (old_permutation & 2u8) && ((old_permutation | 4u8) & 1u8) == (
            old_permutation & 1u8)) by (bit_vector);
            assert(((old_permutation | 2u8) & 2u8 != 0) && ((old_permutation | 2u8) & 8u8) == (old_permutation & 8u8)
                && ((old_permutation | 2u8) & 4u8) == (old_permutation & 4u8) && ((old_permutation | 2u8) & 1u8) == (
            old_permutation & 1u8)) by (bit_vector);
            assert(((old_permutation | 1u8) & 1u8 != 0) && ((old_permutation | 1u8) & 8u8) == (old_permutation & 8u8)
                && ((old_permutation | 1u8) & 4u8) == (old_permutation & 4u8) && ((old_permutation | 1u8) & 2u8) == (
            old_permutation & 2u8)) by (bit_vector);
            assert(old_permutation < 16 ==> (old_permutation | 8u8) < 16 && (old_permutation | 4u8) < 16 && (old_permutation
                | 2u8) < 16 && (old_permutation | 1u8) < 16) by (bit_vector);
        }
        assert forall|j: int| 0 <= j < 4 implies #[trigger] perm_bit(
            permutation,
            PropositionIdentifier::at(j as nat),
        ) == (j < i + 1 && row@[j] == '1') by {
            assert(perm_bit(before, PropositionIdentifier::at(j as nat)) == (j < i && row@[j] == '1'));
            if j == 0 {
            } else if j == 1 {
            } else if j == 2 {
            } else {
            }
        }
        i += 1;
    }
    proof {
        let bits = row@.subrange(0, row@.len() - 1);
        assert forall|j: int| 0 <= j < 4 implies #[trigger] perm_bit(
            permutation,
            PropositionIdentifier::at(j as nat),
        ) == (j < bits.len() && bits[j] == '1') by {
            assert(perm_bit(permutation, PropositionIdentifier::at(j as nat)) == (j < row@.len() - 1
                && row@[j] == '1'));
        }
        lemma_permutation_of_bits(permutation, bits);
    }
    permutation
}

/// The rows of a literal table: the text split at each ", ".
fn split_rows_exec(rows: &str) -> (r: Vec<&str>)
    ensures
        row_views(r@) == split_rows(rows@),
        r@.len() >= 1,
{
    let ghost s = rows@;
    let n = rows.unicode_len();
    let mut parts: Vec<&str> = Vec::new();
    let mut start: usize = 0;
    let mut i: usize = 0;
    while n > 0 && i < n - 1
        invariant
            n == s.len(),
            s == rows@,
            start <= i <= n,
            row_views(parts@) + split_from(s, start as int, i as int) == split_rows(s),
        decreases n - i,
    {
        if rows.get_char(i) == ',' && rows.get_char(i + 1) == ' ' {
            let part = rows.substring_char(start, i);
            proof {
                assert(row_views(parts@.push(part)) =~= row_views(parts@).push(part@));
                assert(row_views(parts@.push(part)) + split_from(s, i + 2, i + 2) =~= row_views(
                    parts@,
                ) + split_from(s, start as int, i as int));
            }
            parts.push(part);
            i += 2;
            start = i;
        } else {
            i += 1;
        }
    }
    let part = rows.substring_char(start, n);
    proof {
        assert(row_views(parts@.push(part)) =~= row_views(parts@) + split_from(
            s,
            start as int,
            i as int,
        ));
    }
    parts.push(part);
    parts
}

/// Checks a set of rows: every character a bit, the first row 2 to 5 long, all rows as
/// long as the first.
fn validate_rows(rows: &Vec<&str>) -> (r: Result<(), RowError>)
    requires
        rows@.len() >= 1,
    ensures
        r == match rows_error(row_views(rows@)) {
            Some(e) => Err::<(), RowError>(e),
            None => Ok(()),
        },
{
    let ghost v = row_views(rows@);
    let mut i: usize = 0;
    while i < rows.len()
        invariant
            i <= rows@.len(),
            v == row_views(rows@),
            forall|k: int| 0 <= k < i ==> is_binary(#[trigger] v[k]),
        decreases rows@.len() - i,
    {
        let row = rows[i];
        let n = row.unicode_len();
        let mut j: usize = 0;
        while j < n
            invariant
                n == row@.len(),
                i < rows@.len(),
                v == row_views(rows@),
                row@ == v[i as int],
                j <= n,
                forall|m: int| 0 <= m < j ==> #[trigger] row@[m] == '0' || row@[m] == '1',
            decreases n - j,
        {
            let c = row.get_char(j);
            if c != '0' && c != '1' {
                assert(!is_binary(v[i as int]));
                return Err(RowError::InvalidCharacter);
            }
            j += 1;
        }
        i += 1;
    }
    let row_size = rows[0].unicode_len();
    if row_size < 2 || row_size > 5 {
        return Err(RowError::InvalidRowSize);
    }
    let mut i: usize = 0;
    while i < rows.len()
        invariant
            i <= rows@.len(),
            v == row_views(rows@),
            row_size == v[0].len(),
            2 <= row_size <= 5,
            forall|k: int| 0 <= k < rows@.len() ==> is_binary(#[trigger] v[k]),
            forall|k: int| 0 <= k < i ==> #[trigger] v[k].len() == row_size,
        decreases rows@.len() - i,
    {
        assert(rows@[i as int]@ == v[i as int]);
        if rows[i].unicode_len() != row_size {
            assert(v[i as int].len() != v[0].len());
            assert(!(exists|k: int| 0 <= k < v.len() && !is_binary(#[trigger] v[k])));

            return Err(RowError::InconsistentRowLength);
        }
        i += 1;
    }
    Ok(())
}

/// The results a set of rows records, indexed by permutation: each row stands for the
/// permutation of its leading bits and records its last bit; a later row for the same
/// permutation wins, and a permutation that no row stands for has none.
fn rows_to_value_map(rows: &Vec<&str>) -> (r: Result<Vec<Option<bool>>, RowError>)
    requires
        rows@.len() >= 1,
    ensures
        match rows_error(row_views(rows@)) {
            Some(e) => r == Err::<Vec<Option<bool>>, RowError>(e),
            None => r is Ok && r->Ok_0@.len() == row_count((rows@[0]@.len() - 1) as nat) && forall|
                p: int,
            |
                0 <= p < r->Ok_0@.len() ==> #[trigger] r->Ok_0@[p] == row_entry(
                    row_views(rows@),
                    p as nat,
                    rows@.len(),
                ),
        },
{
    let ghost v = row_views(rows@);
    match validate_rows(rows) {
        Err(e) => {
            return Err(e);
        },
        Ok(()) => {},
    }
    assert(v[0] == rows@[0]@);
    let proposition_count = rows[0].unicode_len() - 1;
    let n = permutation_count(proposition_count as u8);
    let mut values_and_results: Vec<Option<bool>> = Vec::new();
    let mut p: usize = 0;
    while p < n
        invariant
            p <= n,
            values_and_results@.len() == p,
            forall|q: int| 0 <= q < p ==> #[trigger] values_and_results@[q] == None::<bool>,
        decreases n - p,
    {
        values_and_results.push(None);
        p += 1;
    }
    let mut j: usize = 0;
    while j < rows.len()
        invariant
            v == row_views(rows@),
            rows_error(v) is None,
            proposition_count == v[0].len() - 1,
            1 <= proposition_count <= 4,
            n == row_count(proposition_count as nat),
            j <= rows@.len(),
            values_and_results@.len() == n,
            forall|q: int|
                0 <= q < n ==> #[trigger] values_and_results@[q] == row_entry(v, q as nat, j as nat),
        decreases rows@.len() - j,
    {
        let row = rows[j];
        assert(row@ == v[j as int]);
        assert(is_binary(v[j as int]));
        assert(v[j as int].len() == v[0].len());
        let permutation = decode_permutation_str(row);
        let last = row.unicode_len() - 1;
        let result = row.get_char(last) == '1';
        assert(row_key(v[j as int]) == permutation as nat);
        values_and_results.set(permutation as usize, Some(result));
        j += 1;
    }
    Ok(values_and_results)
}

/// The parenthesized letter of an identifier, as text.
fn letter_str(id: PropositionIdentifier) -> (r: &'static str)
    ensures
        r@ == seq![id.letter()],
{
    match id {
        PropositionIdentifier::A => {
            proof {
                reveal_strlit("A");
            }
            "A"
        },
        PropositionIdentifier::B => {
            proof {
                reveal_strlit("B");
            }
            "B"
        },
        PropositionIdentifier::C => {
            proof {
                reveal_strlit("C");
            }
            "C"
        },
        PropositionIdentifier::D => {
            proof {
                reveal_strlit("D");
            }
            "D"
        },
    }
}

/// The parenthesized conjunction of the letters, among the first `proposition_count`, that
/// `permutation` sets (bit i for the i-th of A, B, C, D); "()" when it sets none.
fn encode_conjunction(permutation: u8, proposition_count: u8) -> (r: String)
    requires
        proposition_count <= 4,
    ensures
        r@ == conjunction_text(permutation, proposition_count as nat),
{
    proof {
        reveal_strlit("(");
        reveal_strlit(")");
        reveal_strlit(" & ");
    }
    let mut body = String::new();
    let mut i: u8 = 0;
    while i < proposition_count
        invariant
            i <= proposition_count <= 4,
            body@ == conjunction_body(permutation, i as nat),
        decreases proposition_count - i,
    {
        proof {
            reveal_strlit(" & ");
        }
        let proposition = PropositionIdentifier::from_int(i);
        if proposition.mask(permutation) {
            if !body.as_str().is_empty() {
                body.append(" & ");
            }
            body.append(letter_str(proposition));
        }
        i += 1;
        assert(body@ =~= conjunction_body(permutation, i as nat));
    }
    let mut conjunction = String::from_str("(");
    conjunction.append(body.as_str());
    conjunction.append(")");
    assert(conjunction@ =~= conjunction_text(permutation, proposition_count as nat));
    conjunction
}

impl TruthTable {
    /// The truth table of an expression: its letters, counted, give the propositions in
    /// play, and every permutation of them below 2^count is evaluated, in ascending order.
    pub fn from_expression(expression: &mut Expression) -> (r: Self)
        requires
            old(expression).wf(),
        ensures
            final(expression).wf(),
            final(expression).model() == old(expression).model(),
            r.wf(),
            r.is_complete(),
            r.identifiers().len() == key_count(old(expression).model().keys),
            forall|p: int|
                0 <= p < r.results().len() ==> #[trigger] r.results()[p] == Some(
                    formula_value(old(expression).model(), p as u8),
                ),
    {
        let proposition_count = expression.proposition_count();
        let propositions = get_propositions(proposition_count);
        let permutations = get_bit_permutations(proposition_count);
        let n = permutations.len();
        proof {
            reveal_with_fuel(row_count, 5);
        }
        let mut values_and_results: Vec<Option<bool>> = Vec::new();
        let mut p: usize = 0;
        while p < n
            invariant
                expression.wf(),
                expression.model() == old(expression).model(),
                n == permutations@.len(),
                forall|i: int| 0 <= i < n ==> #[trigger] permutations@[i] == i as u8,
                n <= 16,
                p <= n,
                values_and_results@.len() == p,
                forall|q: int|
                    0 <= q < p ==> #[trigger] values_and_results@[q] == Some(
                        formula_value(old(expression).model(), q as u8),
                    ),
            decreases n - p,
        {
            let result = expression.evaluate_permutation(permutations[p]);
            values_and_results.push(Some(result));
            p += 1;
        }
        Self::new(propositions, values_and_results)
    }

    /// The truth table that literal rows write out, the rows separated by ", ". Each row
    /// holds one bit per proposition, the first for A, then the result bit. A later row for
    /// the same permutation replaces an earlier one; a permutation that no row writes has
    /// no result.
    pub fn parse_rows(rows: &str) -> (r: Result<Self, RowError>)
        ensures
            match rows_error(split_rows(rows@)) {
                Some(e) => r == Err::<Self, RowError>(e),
                None => {
                    &&& r is Ok
                    &&& r->Ok_0.wf()
                    &&& r->Ok_0.identifiers().len() == split_rows(rows@)[0].len() - 1
                    &&& 1 <= r->Ok_0.identifiers().len() <= 4
                    &&& forall|p: int|
                        0 <= p < r->Ok_0.results().len() ==> #[trigger] r->Ok_0.results()[p]
                            == row_entry(split_rows(rows@), p as nat, split_rows(rows@).len())
                },
            },
    {
        let rows = split_rows_exec(rows);
        match rows_to_value_map(&rows) {
            Err(e) => Err(e),
            Ok(values_and_results) => {
                assert(row_views(rows@)[0] == rows@[0]@);
                let propositions = get_propositions((rows[0].unicode_len() - 1) as u8);
                Ok(Self::new(propositions, values_and_results))
            },
        }
    }

    /// The table as an expression: for each permutation, in ascending order, whose result
    /// is true, the parenthesized conjunction of the letters it sets, joined by " | ". No
    /// true result gives the empty text; a permutation that sets no letter gives "()".
    pub fn to_expression_str(&self) -> (r: String)
        requires
            self.wf(),
        ensures
            r@ == table_text(self.results(), self.identifiers().len(), self.results().len()),
    {
        proof {
            reveal_with_fuel(row_count, 5);
        }
        let proposition_count = self.propositions.len() as u8;
        let n = self.values_and_results.len();
        let mut expression = String::new();
        let mut p: usize = 0;
        while p < n
            invariant
                self.wf(),
                n == self.results().len(),
                n <= 16,
                proposition_count == self.identifiers().len(),
                p <= n,
                expression@ == table_text(self.results(), proposition_count as nat, p as nat),
            decreases n - p,
        {
            proof {
                reveal_strlit(" | ");
            }
            if self.values_and_results[p] == Some(true) {
                if !expression.as_str().is_empty() {
                    expression.append(" | ");
                }
                let conjunction = encode_conjunction(p as u8, proposition_count);
                expression.append(conjunction.as_str());
            }
            p += 1;
            assert(expression@ =~= table_text(self.results(), proposition_count as nat, p as nat));
        }
        expression
    }

    /// Parses an expression, its letters held to start at A without a gap, and builds its
    /// truth table.
    pub fn parse_expression_str(expression: &str) -> (r: Result<Self, ParseError>)
        ensures
            match crate::expressions::parse_spec(expression@, true) {
                Ok(f) => {
                    &&& r is Ok
                    &&& r->Ok_0.wf()
                    &&& r->Ok_0.is_complete()
                    &&& r->Ok_0.identifiers().len() == key_count(f.keys)
                    &&& forall|p: int|
                        0 <= p < r->Ok_0.results().len() ==> #[trigger] r->Ok_0.results()[p]
                            == Some(formula_value(f, p as u8))
                },
                Err(e) => r == Err::<Self, ParseError>(e),
            },
    {
        match Expression::parse(expression, true) {
            Ok(mut parsed) => Ok(Self::from_expression(&mut parsed)),
            Err(e) => Err(e),
        }
    }

    /// The propositions in play, in canonical order.
    pub fn propositions(&self) -> (r: &Vec<PropositionIdentifier>)
        ensures
            r@ == self.identifiers(),
    {
        &self.propositions
    }

    /// The result recorded for `permutation` (bit i holds the i-th proposition), if any.
    pub fn result(&self, permutation: u8) -> (r: Option<bool>)
        ensures
            r == if (permutation as int) < self.results().len() {
                self.results()[permutation as int]
            } else {
                None
            },
    {
        if (permutation as usize) < self.values_and_results.len() {
            self.values_and_results[permutation as usize]
        } else {
            None
        }
    }

    /// The recorded rows in ascending order of permutation, each as its permutation and
    /// its result.
    pub fn rows(&self) -> (r: Vec<(u8, bool)>)
        requires
            self.wf(),
        ensures
            r@ == listed_rows(self.results(), self.results().len()),
    {
        proof {
            reveal_with_fuel(row_count, 5);
        }
        let n = self.values_and_results.len();
        let mut rows: Vec<(u8, bool)> = Vec::new();
        let mut q: usize = 0;
        while q < n
            invariant
                self.wf(),
                n == self.results().len(),
                n <= 16,
                q <= n,
                rows@ == listed_rows(self.results(), q as nat),
            decreases n - q,
        {
            match self.values_and_results[q] {
                Some(result) => {
                    rows.push((q as u8, result));
                },
                None => {},
            }
            q += 1;
        }
        rows
    }
}

impl Default for TruthTable {
    /// The table with no propositions and no recorded row.
    fn default() -> (r: Self)
        ensures
            r.wf(),
            r.identifiers().len() == 0,
            r.results() == seq![None::<bool>],
    {
        let mut values_and_results: Vec<Option<bool>> = Vec::new();
        values_and_results.push(None);
        let r = Self::new(Vec::new(), values_and_results);
        assert(r.identifiers() =~= first_identifiers(0));
        assert(r.results() =~= seq![None::<bool>]);
        r
    }
}

} // verus!
