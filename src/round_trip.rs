//! A table written as an expression and read back.
use vstd::prelude::*;
use crate::expressions::formula_value;
use crate::expressions::matching_close;
use crate::expressions::parse_spec;
use crate::expressions::prefix_value;
use crate::expressions::scan;
use crate::expressions::term_value;
use crate::expressions::Formula;
use crate::expressions::Operand;
use crate::expressions::Operator;
use crate::expressions::ParseError;
use crate::expressions::combine;
use crate::expressions::Term;
use crate::propositions::perm_bit;
use crate::propositions::proposition_of;
use crate::propositions::PropositionIdentifier;
use crate::truth_table::conjunction_body;
use crate::truth_table::conjunction_text;
use crate::truth_table::table_text;
use crate::truth_table::row_count;
use crate::truth_table::TruthTable;
use crate::propositions::key_count;
use crate::propositions::mentioned;

verus! {

/// Every letter among the first `n` that `p` sets, `q` sets too.
pub open spec fn covers(p: u8, q: u8, n: nat) -> bool
    decreases n,
{
    n == 0 || (covers(p, q, (n - 1) as nat) && (perm_bit(p, PropositionIdentifier::at((n - 1) as nat))
        ==> perm_bit(q, PropositionIdentifier::at((n - 1) as nat))))
}

/// Some true row of the table sets only letters that `q` sets.
pub open spec fn implied_by_true_rows(results: Seq<Option<bool>>, k: nat, q: u8) -> bool {
    exists|p: int| 0 <= p < results.len() && results[p] == Some(true) && covers(p as u8, q, k)
}

/// Some true row sets the `i`-th letter.
pub open spec fn set_in_true_row(results: Seq<Option<bool>>, i: nat) -> bool {
    exists|p: int|
        0 <= p < results.len() && results[p] == Some(true) && #[trigger] perm_bit(
            p as u8,
            PropositionIdentifier::at(i),
        )
}

/// `m` copies of an operator.
pub open spec fn repeated(op: Operator, m: int) -> Seq<Operator> {
    Seq::new(if m > 0 { m as nat } else { 0 }, |i: int| op)
}

/// The terms of the conjunction of the letters that `p` sets among the first `n`.
pub open spec fn conjunction_terms(p: u8, n: nat) -> Seq<Term>
    decreases n,
{
    if n == 0 {
        Seq::empty()
    } else {
        let prev = conjunction_terms(p, (n - 1) as nat);
        let id = PropositionIdentifier::at((n - 1) as nat);
        if perm_bit(p, id) {
            prev.push(Term { operand: Operand::Letter(id), negated: false })
        } else {
            prev
        }
    }
}

/// The expression that the body of a conjunction parses to.
pub open spec fn conjunction_formula(p: u8, k: nat) -> Formula {
    let terms = conjunction_terms(p, k);
    Formula {
        terms,
        operators: repeated(Operator::And, terms.len() - 1),
        keys: crate::propositions::mentioned(conjunction_body(p, k)),
    }
}

/// The groups, one per true permutation below `n`, that the text of a table parses to.
pub open spec fn table_terms(results: Seq<Option<bool>>, k: nat, n: nat) -> Seq<Term>
    decreases n,
{
    if n == 0 {
        Seq::empty()
    } else {
        let prev = table_terms(results, k, (n - 1) as nat);
        if results[n - 1] == Some(true) {
            prev.push(Term { operand: Operand::Group(conjunction_formula((n - 1) as u8, k)), negated: false })
        } else {
            prev
        }
    }
}

/// A letter reads back as its identifier and is no parenthesis.
proof fn lemma_letter_round_trip(id: PropositionIdentifier)
    ensures
        proposition_of(id.letter()) == Some(id),
        id.letter() != '(' && id.letter() != ')',
{
}

/// What a conjunction body holds: no parenthesis, only letters of the first `n`, each
/// letter that `p` sets, and text exactly when it has terms.
proof fn lemma_body_shape(p: u8, n: nat)
    requires
        n <= 4,
    ensures
        conjunction_body(p, n).len() == 0 <==> conjunction_terms(p, n).len() == 0,
        forall|j: int|
            0 <= j < conjunction_body(p, n).len() ==> #[trigger] conjunction_body(p, n)[j] != '('
                && conjunction_body(p, n)[j] != ')',
        forall|j: int|
            0 <= j < conjunction_body(p, n).len() && (#[trigger] proposition_of(
                conjunction_body(p, n)[j],
            )) is Some ==> proposition_of(conjunction_body(p, n)[j])->0.index() < n,
        forall|i: nat|
            i < n && #[trigger] perm_bit(p, PropositionIdentifier::at(i))
                ==> crate::propositions::mentions(conjunction_body(p, n), PropositionIdentifier::at(i)),
        conjunction_terms(p, n).len() == 0 ==> forall|q: u8| covers(p, q, n),
    decreases n,
{
    if n > 0 {
        let m = (n - 1) as nat;
        lemma_body_shape(p, m);
        let prev = conjunction_body(p, m);
        let body = conjunction_body(p, n);
        let id = PropositionIdentifier::at(m);
        lemma_letter_round_trip(id);
        if perm_bit(p, id) {
            assert forall|i: nat|
                i < n && #[trigger] perm_bit(p, PropositionIdentifier::at(i))
                    implies crate::propositions::mentions(body, PropositionIdentifier::at(i)) by {
                if i < m {
                    let w = choose|w: int| 0 <= w < prev.len() && proposition_of(prev[w]) == Some(PropositionIdentifier::at(i));
                    assert(body[w] == prev[w]);
                } else {
                    assert(body[body.len() - 1] == id.letter());
                }
            }
            assert forall|j: int|
                0 <= j < body.len() && (#[trigger] proposition_of(body[j])) is Some
                    implies proposition_of(body[j])->0.index() < n by {
                if j < prev.len() {
                    assert(body[j] == prev[j]);
                }
            }
            assert forall|j: int| 0 <= j < body.len() implies #[trigger] body[j] != '(' && body[j] != ')' by {
                if j < prev.len() {
                    assert(body[j] == prev[j]);
                }
            }
        } else {
            assert forall|q: u8| conjunction_terms(p, n).len() == 0 implies covers(p, q, n) by {
                assert(covers(p, q, m));
            }
        }
    }
}

/// A run of text free of parentheses, then ')', closes the group at depth one.
proof fn lemma_close_after_plain_text(s: Seq<char>, i: int, j: int)
    requires
        0 <= i <= j < s.len(),
        forall|m: int| i <= m < j ==> s[m] != '(' && s[m] != ')',
        s[j] == ')',
    ensures
        matching_close(s, i, 1) == j,
    decreases j - i,
{
    if i < j {
        lemma_close_after_plain_text(s, i + 1, j);
    }
}

/// Scanning over a conjunction body collects its letters and one conjunction between
/// each two of them.
proof fn lemma_scan_body(
    p: u8,
    n: nat,
    s: Seq<char>,
    i: int,
    terms: Seq<Term>,
    ops: Seq<Operator>,
)
    requires
        n <= 4,
        0 <= i,
        i + conjunction_body(p, n).len() <= s.len(),
        s.subrange(i, i + conjunction_body(p, n).len()) == conjunction_body(p, n),
    ensures
        scan(s, i, false, terms, ops) == scan(
            s,
            i + conjunction_body(p, n).len(),
            false,
            terms + conjunction_terms(p, n),
            ops + repeated(Operator::And, conjunction_terms(p, n).len() - 1),
        ),
    decreases n,
{
    lemma_body_shape(p, n);
    if n == 0 {
        assert(terms + conjunction_terms(p, n) =~= terms);
        assert(ops + repeated(Operator::And, conjunction_terms(p, n).len() - 1) =~= ops);
    } else {
        let m = (n - 1) as nat;
        lemma_body_shape(p, m);
        let prev = conjunction_body(p, m);
        let body = conjunction_body(p, n);
        let id = PropositionIdentifier::at(m);
        lemma_letter_round_trip(id);
        let t = conjunction_terms(p, m);
        if perm_bit(p, id) {
            let letter = Term { operand: Operand::Letter(id), negated: false };
            if prev.len() == 0 {
                assert(s[i] == body[0]);
                assert(terms + conjunction_terms(p, n) =~= terms.push(letter));
                assert(ops + repeated(Operator::And, conjunction_terms(p, n).len() - 1) =~= ops);
            } else {
                assert(s.subrange(i, i + prev.len()) =~= prev) by {
                    assert forall|w: int| 0 <= w < prev.len() implies s.subrange(i, i + prev.len())[w] == prev[w] by {
                        assert(s[i + w] == body[w]);
                    }
                }
                lemma_scan_body(p, m, s, i, terms, ops);
                let j = i + prev.len();
                assert(s[j] == body[prev.len() as int]);
                assert(s[j + 1] == body[prev.len() + 1int]);
                assert(s[j + 2] == body[prev.len() + 2int]);
                assert(s[j + 3] == body[prev.len() + 3int]);
                let t1 = terms + t;
                let o1 = ops + repeated(Operator::And, t.len() - 1);
                assert(scan(s, j, false, t1, o1) == scan(s, j + 1, false, t1, o1));
                assert(scan(s, j + 1, false, t1, o1) == scan(s, j + 2, false, t1, o1.push(Operator::And)));
                assert(scan(s, j + 2, false, t1, o1.push(Operator::And)) == scan(s, j + 3, false, t1, o1.push(Operator::And)));
                assert(scan(s, j + 3, false, t1, o1.push(Operator::And)) == scan(s, j + 4, false, t1.push(letter), o1.push(Operator::And)));
                assert(terms + conjunction_terms(p, n) =~= t1.push(letter));
                assert(ops + repeated(Operator::And, conjunction_terms(p, n).len() - 1) =~= o1.push(Operator::And));
            }
        } else {
            lemma_scan_body(p, m, s, i, terms, ops);
        }
    }
}

/// A conjunction body with at least one letter parses to its conjunction.
proof fn lemma_parse_body(p: u8, k: nat)
    requires
        k <= 4,
        conjunction_body(p, k).len() > 0,
    ensures
        parse_spec(conjunction_body(p, k), false) == Ok::<Formula, ParseError>(conjunction_formula(p, k)),
{
    let body = conjunction_body(p, k);
    lemma_body_shape(p, k);
    assert(body.subrange(0, body.len() as int) =~= body);
    lemma_scan_body(p, k, body, 0, Seq::empty(), Seq::empty());
    let t = conjunction_terms(p, k);
    assert(Seq::<Term>::empty() + t =~= t);
    let o = repeated(Operator::And, t.len() - 1);
    assert(Seq::<Operator>::empty() + o =~= o);
}

/// Scanning over a parenthesized conjunction adds its group as one term.
proof fn lemma_scan_group(
    p: u8,
    k: nat,
    s: Seq<char>,
    i: int,
    terms: Seq<Term>,
    ops: Seq<Operator>,
)
    requires
        k <= 4,
        conjunction_body(p, k).len() > 0,
        0 <= i,
        i + conjunction_text(p, k).len() <= s.len(),
        s.subrange(i, i + conjunction_text(p, k).len()) == conjunction_text(p, k),
    ensures
        scan(s, i, false, terms, ops) == scan(
            s,
            i + conjunction_text(p, k).len(),
            false,
            terms.push(Term { operand: Operand::Group(conjunction_formula(p, k)), negated: false }),
            ops,
        ),
{
    let body = conjunction_body(p, k);
    let text = conjunction_text(p, k);
    lemma_body_shape(p, k);
    lemma_parse_body(p, k);
    let rest = s.subrange(i, s.len() as int);
    assert(rest[0] == text[0]);
    assert forall|m: int| 1 <= m < 1 + body.len() as int implies rest[m] != '(' && rest[m] != ')' by {
        assert(rest[m] == text[m]);
        assert(text[m] == body[m - 1]);
    }
    assert(rest[1 + body.len() as int] == text[1 + body.len() as int]);
    lemma_close_after_plain_text(rest, 1, 1 + body.len() as int);
    assert(rest.subrange(1, 1 + body.len() as int) =~= body) by {
        assert forall|m: int| 0 <= m < body.len() implies rest.subrange(1, 1 + body.len() as int)[m] == body[m] by {
            assert(rest[1 + m] == text[1 + m]);
        }
    }
}

/// Scanning over the text of the true permutations below `n` collects one group per
/// permutation and one disjunction between each two of them.
proof fn lemma_scan_table(
    results: Seq<Option<bool>>,
    k: nat,
    n: nat,
    s: Seq<char>,
    i: int,
    terms: Seq<Term>,
    ops: Seq<Operator>,
)
    requires
        k <= 4,
        n <= results.len(),
        n <= 16,
        forall|p: int| 0 <= p < n && results[p] == Some(true) ==> conjunction_body(p as u8, k).len() > 0,
        0 <= i,
        i + table_text(results, k, n).len() <= s.len(),
        s.subrange(i, i + table_text(results, k, n).len()) == table_text(results, k, n),
    ensures
        table_text(results, k, n).len() == 0 <==> table_terms(results, k, n).len() == 0,
        scan(s, i, false, terms, ops) == scan(
            s,
            i + table_text(results, k, n).len(),
            false,
            terms + table_terms(results, k, n),
            ops + repeated(Operator::Or, table_terms(results, k, n).len() - 1),
        ),
    decreases n,
{
    if n == 0 {
        assert(terms + table_terms(results, k, n) =~= terms);
        assert(ops + repeated(Operator::Or, table_terms(results, k, n).len() - 1) =~= ops);
    } else {
        let m = (n - 1) as nat;
        let prev = table_text(results, k, m);
        let text = table_text(results, k, n);
        let t = table_terms(results, k, m);
        assert(s.subrange(i, i + prev.len()) =~= prev) by {
            assert forall|w: int| 0 <= w < prev.len() implies s.subrange(i, i + prev.len())[w] == prev[w] by {
                assert(s[i + w] == text[w]);
            }
        }
        lemma_scan_table(results, k, m, s, i, terms, ops);
        if results[m as int] == Some(true) {
            let conj = conjunction_text(m as u8, k);
            let group = Term { operand: Operand::Group(conjunction_formula(m as u8, k)), negated: false };
            let t1 = terms + t;
            let o1 = ops + repeated(Operator::Or, t.len() - 1);
            if prev.len() == 0 {
                assert(s.subrange(i, i + conj.len()) =~= conj) by {
                    assert forall|w: int| 0 <= w < conj.len() implies s.subrange(i, i + conj.len())[w] == conj[w] by {
                        assert(s[i + w] == text[w]);
                    }
                }
                lemma_scan_group(m as u8, k, s, i, t1, o1);
                assert(terms + table_terms(results, k, n) =~= t1.push(group));
                assert(ops + repeated(Operator::Or, table_terms(results, k, n).len() - 1) =~= o1);
            } else {
                let j = i + prev.len();
                assert(s[j] == text[prev.len() as int]);
                assert(s[j + 1] == text[prev.len() + 1int]);
                assert(s[j + 2] == text[prev.len() + 2int]);
                assert(scan(s, j, false, t1, o1) == scan(s, j + 1, false, t1, o1));
                assert(scan(s, j + 1, false, t1, o1) == scan(s, j + 2, false, t1, o1.push(Operator::Or)));
                assert(scan(s, j + 2, false, t1, o1.push(Operator::Or)) == scan(s, j + 3, false, t1, o1.push(Operator::Or)));
                assert(s.subrange(j + 3, j + 3 + conj.len()) =~= conj) by {
                    assert forall|w: int| 0 <= w < conj.len() implies s.subrange(j + 3, j + 3 + conj.len())[w] == conj[w] by {
                        assert(s[j + 3 + w] == text[prev.len() + 3 + w]);
                    }
                }
                lemma_scan_group(m as u8, k, s, j + 3, t1, o1.push(Operator::Or));
                assert(terms + table_terms(results, k, n) =~= t1.push(group));
                assert(ops + repeated(Operator::Or, table_terms(results, k, n).len() - 1) =~= o1.push(Operator::Or));
            }
        }
    }
}

/// The value of a prefix of an expression depends on that prefix only.
proof fn lemma_prefix_unchanged(f: Formula, g: Formula, q: u8, j: nat)
    requires
        j < f.terms.len(),
        f.terms.len() <= g.terms.len(),
        forall|w: int| 0 <= w < f.terms.len() ==> #[trigger] g.terms[w] == f.terms[w],
        forall|w: int| 0 <= w < f.operators.len() ==> #[trigger] g.operators[w] == f.operators[w],
        f.terms.len() == f.operators.len() + 1,
    ensures
        prefix_value(g, q, j) == prefix_value(f, q, j),
    decreases j,
{
    if j > 0 {
        lemma_prefix_unchanged(f, g, q, (j - 1) as nat);
    }
}

/// Appending an operator and a term to an expression combines its value with the term's.
proof fn lemma_push_value(f: Formula, x: Term, op: Operator, keys: Seq<bool>, q: u8)
    requires
        f.terms.len() == f.operators.len() + 1,
    ensures
        formula_value(
            Formula { terms: f.terms.push(x), operators: f.operators.push(op), keys },
            q,
        ) == combine(formula_value(f, q), op, term_value(x, q)),
{
    let g = Formula { terms: f.terms.push(x), operators: f.operators.push(op), keys };
    lemma_prefix_unchanged(f, g, q, f.operators.len());
}

/// A conjunction is true exactly where every letter it lists is true.
proof fn lemma_conjunction_value(p: u8, n: nat, keys: Seq<bool>, q: u8)
    requires
        n <= 4,
        conjunction_terms(p, n).len() > 0,
    ensures
        formula_value(
            Formula {
                terms: conjunction_terms(p, n),
                operators: repeated(Operator::And, conjunction_terms(p, n).len() - 1),
                keys,
            },
            q,
        ) == covers(p, q, n),
    decreases n,
{
    let m = (n - 1) as nat;
    let id = PropositionIdentifier::at(m);
    let t = conjunction_terms(p, m);
    lemma_body_shape(p, m);
    if perm_bit(p, id) {
        let letter = Term { operand: Operand::Letter(id), negated: false };
        if t.len() == 0 {
            assert(covers(p, q, m));
            assert(conjunction_terms(p, n) =~= seq![letter]);
            assert(repeated(Operator::And, conjunction_terms(p, n).len() - 1) =~= Seq::<Operator>::empty());
        } else {
            lemma_conjunction_value(p, m, keys, q);
            let f = Formula { terms: t, operators: repeated(Operator::And, t.len() - 1), keys };
            lemma_push_value(f, letter, Operator::And, keys, q);
            assert(f.terms.push(letter) =~= conjunction_terms(p, n));
            assert(f.operators.push(Operator::And) =~= repeated(Operator::And, conjunction_terms(p, n).len() - 1));
        }
    } else {
        lemma_conjunction_value(p, m, keys, q);
    }
}

/// The groups of the true permutations below `n`, joined by disjunctions, are true
/// exactly where one of those permutations is covered.
proof fn lemma_table_value(results: Seq<Option<bool>>, k: nat, n: nat, keys: Seq<bool>, q: u8)
    requires
        k <= 4,
        n <= results.len(),
        n <= 16,
        forall|p: int| 0 <= p < n && results[p] == Some(true) ==> conjunction_body(p as u8, k).len() > 0,
        table_terms(results, k, n).len() > 0,
    ensures
        formula_value(
            Formula {
                terms: table_terms(results, k, n),
                operators: repeated(Operator::Or, table_terms(results, k, n).len() - 1),
                keys,
            },
            q,
        ) == exists|p: int| 0 <= p < n && results[p] == Some(true) && covers(p as u8, q, k),
    decreases n,
{
    let m = (n - 1) as nat;
    let t = table_terms(results, k, m);
    if results[m as int] == Some(true) {
        let conj = conjunction_formula(m as u8, k);
        let group = Term { operand: Operand::Group(conj), negated: false };
        lemma_body_shape(m as u8, k);
        lemma_conjunction_value(m as u8, k, conj.keys, q);
        assert(term_value(group, q) == covers(m as u8, q, k));
        if t.len() == 0 {
            assert(table_terms(results, k, n) =~= seq![group]);
            assert(repeated(Operator::Or, table_terms(results, k, n).len() - 1) =~= Seq::<Operator>::empty());
            assert forall|p: int| 0 <= p < m implies !(results[p] == Some(true)) by {
                lemma_no_true_below(results, k, m, p);
            }
        } else {
            lemma_table_value(results, k, m, keys, q);
            let f = Formula { terms: t, operators: repeated(Operator::Or, t.len() - 1), keys };
            lemma_push_value(f, group, Operator::Or, keys, q);
            assert(f.terms.push(group) =~= table_terms(results, k, n));
            assert(f.operators.push(Operator::Or) =~= repeated(Operator::Or, table_terms(results, k, n).len() - 1));
        }
    } else {
        lemma_table_value(results, k, m, keys, q);
    }
}

/// With no group below `n`, no permutation below `n` is true.
proof fn lemma_no_true_below(results: Seq<Option<bool>>, k: nat, n: nat, p: int)
    requires
        n <= results.len(),
        table_terms(results, k, n).len() == 0,
        0 <= p < n,
    ensures
        results[p] != Some(true),
    decreases n,
{
    if p < n - 1 {
        lemma_no_true_below(results, k, (n - 1) as nat, p);
    }
}

/// The letters of the text of the true permutations below `n`: only the first `k`, and
/// each one that such a permutation sets.
proof fn lemma_table_letters(results: Seq<Option<bool>>, k: nat, n: nat)
    requires
        k <= 4,
        n <= results.len(),
        n <= 16,
    ensures
        forall|j: int|
            0 <= j < table_text(results, k, n).len() && (#[trigger] proposition_of(
                table_text(results, k, n)[j],
            )) is Some ==> proposition_of(table_text(results, k, n)[j])->0.index() < k,
        forall|p: int, i: nat|
            0 <= p < n && results[p] == Some(true) && i < k && #[trigger] perm_bit(
                p as u8,
                PropositionIdentifier::at(i),
            ) ==> crate::propositions::mentions(table_text(results, k, n), PropositionIdentifier::at(i)),
    decreases n,
{
    if n > 0 {
        let m = (n - 1) as nat;
        lemma_table_letters(results, k, m);
        let prev = table_text(results, k, m);
        let text = table_text(results, k, n);
        if results[m as int] == Some(true) {
            let conj = conjunction_text(m as u8, k);
            let body = conjunction_body(m as u8, k);
            lemma_body_shape(m as u8, k);
            let off: int = if prev.len() == 0 { 0 } else { prev.len() + 3int };
            assert(text.len() == off + conj.len());
            assert forall|j: int| 0 <= j < conj.len() implies #[trigger] text[off + j] == conj[j] by {}
            assert forall|j: int| 0 <= j < prev.len() implies #[trigger] text[j] == prev[j] by {}
            assert forall|j: int|
                0 <= j < text.len() && (#[trigger] proposition_of(text[j])) is Some
                    implies proposition_of(text[j])->0.index() < k by {
                if j < prev.len() {
                    assert(text[j] == prev[j]);
                } else if j >= off + 1 && j < off + 1 + body.len() {
                    assert(text[j] == conj[j - off]);
                    assert(conj[j - off] == body[j - off - 1]);
                } else if j == off || j == off + 1 + body.len() {
                    assert(text[j] == conj[j - off]);
                } else {
                }
            }
            assert forall|p: int, i: nat|
                0 <= p < n && results[p] == Some(true) && i < k && #[trigger] perm_bit(
                    p as u8,
                    PropositionIdentifier::at(i),
                ) implies crate::propositions::mentions(text, PropositionIdentifier::at(i)) by {
                let id = PropositionIdentifier::at(i);
                if p < m {
                    let w = choose|w: int| 0 <= w < prev.len() && proposition_of(prev[w]) == Some(id);
                    assert(text[w] == prev[w]);
                } else {
                    let w = choose|w: int| 0 <= w < body.len() && proposition_of(body[w]) == Some(id);
                    assert(conj[w + 1] == body[w]);
                    assert(text[off + w + 1] == conj[w + 1]);
                }
            }
        }
    }
}

/// A permutation of `k` propositions other than zero sets one of them.
proof fn lemma_some_letter(p: u8, k: nat)
    requires
        1 <= k <= 4,
        0 < p,
        (p as nat) < crate::truth_table::row_count(k),
    ensures
        exists|i: nat| i < k && perm_bit(p, PropositionIdentifier::at(i)),
{
    reveal_with_fuel(crate::truth_table::row_count, 5);
    crate::truth_table::lemma_nibble_bits(p);
    assert(p < 2 ==> (p & 2u8 == 0 && p & 4u8 == 0 && p & 8u8 == 0)) by (bit_vector);
    assert(p < 4 ==> (p & 4u8 == 0 && p & 8u8 == 0)) by (bit_vector);
    assert(p < 8 ==> p & 8u8 == 0) by (bit_vector);
    if perm_bit(p, PropositionIdentifier::at(0)) {
    } else if perm_bit(p, PropositionIdentifier::at(1)) {
        assert(1 < k);
    } else if perm_bit(p, PropositionIdentifier::at(2)) {
        assert(2 < k);
    } else {
        assert(perm_bit(p, PropositionIdentifier::at(3)));
        assert(3 < k);
    }
}

/// Writing a table as an expression (`to_expression_str`) and building the table of that
/// expression (`parse_expression_str`) gives back every result the table records, with the
/// same propositions in play. Each conjunction lists only the letters its row sets, so this
/// holds where every recorded result is the one the true rows imply, every letter is set in
/// some true row, and the row that sets no letter is not true (its conjunction, "()", does
/// not parse).
pub proof fn lemma_round_trip(table: TruthTable)
    requires
        table.wf(),
        1 <= table.identifiers().len(),
        table.results()[0] != Some(true),
        forall|i: nat|
            i < table.identifiers().len() ==> #[trigger] set_in_true_row(table.results(), i),
        forall|q: int|
            0 <= q < table.results().len() && (#[trigger] table.results()[q]) is Some
                ==> table.results()[q] == Some(
                implied_by_true_rows(table.results(), table.identifiers().len(), q as u8),
            ),
    ensures
        ({
            let text = table_text(table.results(), table.identifiers().len(), table.results().len());
            &&& parse_spec(text, true) is Ok
            &&& key_count(parse_spec(text, true)->Ok_0.keys) == table.identifiers().len()
            &&& forall|q: int|
                0 <= q < table.results().len() && (#[trigger] table.results()[q]) is Some
                    ==> table.results()[q] == Some(
                    formula_value(parse_spec(text, true)->Ok_0, q as u8),
                )
        }),
{
    let results = table.results();
    let k = table.identifiers().len();
    let n = results.len();
    lemma_true_rows_have_letters(results, k);
    let text = table_text(results, k, n);
    assert(text.subrange(0, text.len() as int) =~= text);
    lemma_scan_table(results, k, n, text, 0, Seq::empty(), Seq::empty());
    let terms = table_terms(results, k, n);
    let ops = repeated(Operator::Or, terms.len() - 1);
    assert(Seq::<Term>::empty() + terms =~= terms);
    assert(Seq::<Operator>::empty() + ops =~= ops);
    assert(set_in_true_row(results, 0));
    let first_true = choose|p: int|
        0 <= p < n && results[p] == Some(true) && #[trigger] perm_bit(
            p as u8,
            PropositionIdentifier::at(0),
        );
    if terms.len() == 0 {
        lemma_no_true_below(results, k, n, first_true);
    }
    assert(scan(text, 0, false, Seq::empty(), Seq::empty()) == Ok::<
        (Seq<Term>, Seq<Operator>),
        ParseError,
    >((terms, ops)));
    lemma_text_keys(results, k);
    let keys = mentioned(text);
    let f = Formula { terms, operators: ops, keys };
    assert(parse_spec(text, true) == Ok::<Formula, ParseError>(f));
    assert forall|q: int| 0 <= q < n && (#[trigger] results[q]) is Some implies results[q] == Some(
        formula_value(f, q as u8),
    ) by {
        lemma_table_value(results, k, n, keys, q as u8);
    }
}

/// Every true row other than the one that sets no letter has a letter in its conjunction.
proof fn lemma_true_rows_have_letters(results: Seq<Option<bool>>, k: nat)
    requires
        1 <= k <= 4,
        results.len() == row_count(k),
        results[0] != Some(true),
    ensures
        results.len() <= 16,
        forall|p: int|
            0 <= p < results.len() && results[p] == Some(true) ==> conjunction_body(p as u8, k).len() > 0,
{
    reveal_with_fuel(row_count, 5);
    assert forall|p: int| 0 <= p < results.len() && results[p] == Some(true) implies conjunction_body(
        p as u8,
        k,
    ).len() > 0 by {
        lemma_some_letter(p as u8, k);
        let i = choose|i: nat| i < k && perm_bit(p as u8, PropositionIdentifier::at(i));
        lemma_body_shape(p as u8, k);
        assert(crate::propositions::mentions(conjunction_body(p as u8, k), PropositionIdentifier::at(i)));
    }
}

/// The text of a table in which every letter in play is set in some true row mentions
/// exactly those letters.
proof fn lemma_text_keys(results: Seq<Option<bool>>, k: nat)
    requires
        1 <= k <= 4,
        results.len() <= 16,
        forall|i: nat| i < k ==> #[trigger] set_in_true_row(results, i),
    ensures
        crate::propositions::contiguous(mentioned(table_text(results, k, results.len()))),
        key_count(mentioned(table_text(results, k, results.len()))) == k,
{
    let n = results.len();
    let text = table_text(results, k, n);
    lemma_table_letters(results, k, n);
    let keys = mentioned(text);
    assert forall|i: int| 0 <= i < 4 implies (#[trigger] keys[i] <==> i < k) by {
        let id = PropositionIdentifier::at(i as nat);
        if i < k {
            assert(set_in_true_row(results, i as nat));
            let p = choose|p: int|
                0 <= p < n && results[p] == Some(true) && #[trigger] perm_bit(
                    p as u8,
                    PropositionIdentifier::at(i as nat),
                );
        } else if keys[i] {
            let w = choose|w: int| 0 <= w < text.len() && proposition_of(text[w]) == Some(id);
            assert(proposition_of(text[w])->0.index() < k);
        }
    }
    assert(crate::propositions::first_keys(keys, k));
}

} // verus!
