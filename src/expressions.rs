use vstd::prelude::*;
use crate::propositions::contiguous;
use crate::propositions::key_count;
use crate::propositions::mentioned;
use crate::propositions::mentions;
use crate::propositions::perm_bit;
use crate::propositions::proposition_of;
use crate::propositions::PropositionIdentifier;
use crate::propositions::PropositionTable;

verus! {

/// An operator between two elements. Both bind alike: an expression is combined strictly
/// from left to right.
#[derive(PartialEq, Eq, Structural, Clone, Copy, Debug)]
pub enum Operator {
    And,
    Or,
}

/// What an element stands for: one proposition, or a parenthesized expression of its own.
#[derive(Debug)]
pub enum ExpressionElementToken {
    Proposition(PropositionIdentifier),
    Subexpression(Expression),
}

/// An element of an expression, with whether it is negated.
#[derive(Debug)]
pub struct ExpressionElement {
    token: ExpressionElementToken,
    negation: bool,
}

/// A parsed expression: its elements, the operators between them (one fewer), and the
/// table of the letters its text uses. Each nested expression owns its own table.
#[derive(Debug)]
pub struct Expression {
    elements: Vec<ExpressionElement>,
    operators: Vec<Operator>,
    propositions: PropositionTable,
}

/// The mathematical view of what an element stands for.
pub enum Operand {
    Letter(PropositionIdentifier),
    Group(Formula),
}

/// The mathematical view of an element.
pub struct Term {
    pub operand: Operand,
    pub negated: bool,
}

/// The mathematical view of an expression: its terms, its operators, and the key set of
/// its table (one flag per identifier, in canonical order).
pub struct Formula {
    pub terms: Seq<Term>,
    pub operators: Seq<Operator>,
    pub keys: Seq<bool>,
}

impl Expression {
    /// The expression without the values its tables hold.
    pub closed spec fn model(&self) -> Formula
        decreases self,
    {
        Formula {
            terms: Seq::new(
                self.elements@.len(),
                |i: int|
                    if 0 <= i < self.elements@.len() {
                        self.elements@[i].model()
                    } else {
                        Term { operand: Operand::Letter(PropositionIdentifier::A), negated: false }
                    },
            ),
            operators: self.operators@,
            keys: self.propositions.keys(),
        }
    }

    /// One more element than operators, every proposition of a node in that node's
    /// table, and the same of every nested expression.
    pub closed spec fn wf(&self) -> bool
        decreases self,
    {
        &&& self.elements@.len() == self.operators@.len() + 1
        &&& self.propositions.wf()
        &&& forall|i: int|
            0 <= i < self.elements@.len() ==> match #[trigger] self.elements@[i].token {
                ExpressionElementToken::Proposition(id) => self.propositions.contains(id),
                ExpressionElementToken::Subexpression(e) => e.wf(),
            }
    }
}

impl Expression {
    /// Every table in the tree gives each identifier it holds its value in permutation `p`.
    pub closed spec fn assigned_to(&self, p: u8) -> bool
        decreases self,
    {
        &&& forall|id: PropositionIdentifier| #[trigger]
            self.propositions.contains(id) ==> self.propositions.value_of(id) == Some(
                perm_bit(p, id),
            )
        &&& forall|i: int|
            0 <= i < self.elements@.len() ==> match #[trigger] self.elements@[i].token {
                ExpressionElementToken::Proposition(_) => true,
                ExpressionElementToken::Subexpression(e) => e.assigned_to(p),
            }
    }

    /// Some permutation was assigned to the whole tree.
    pub open spec fn is_assigned(&self) -> bool {
        exists|p: u8| self.assigned_to(p)
    }
}

impl ExpressionElement {
    /// The element without the values its nested tables hold.
    pub closed spec fn model(&self) -> Term
        decreases self,
    {
        Term {
            operand: match self.token {
                ExpressionElementToken::Proposition(id) => Operand::Letter(id),
                ExpressionElementToken::Subexpression(e) => Operand::Group(e.model()),
            },
            negated: self.negation,
        }
    }
}

/// One more term than operators, in the expression and in every group nested in it at
/// any depth.
pub open spec fn balanced(f: Formula) -> bool
    decreases f,
{
    &&& f.terms.len() == f.operators.len() + 1
    &&& forall|i: int|
        0 <= i < f.terms.len() ==> match #[trigger] f.terms[i].operand {
            Operand::Letter(_) => true,
            Operand::Group(g) => balanced(g),
        }
}

/// One step of left-to-right evaluation.
pub open spec fn combine(acc: bool, op: Operator, v: bool) -> bool {
    match op {
        Operator::And => acc && v,
        Operator::Or => acc || v,
    }
}

/// The value of a term when permutation `p` (bit i for the i-th of A, B, C, D) assigns
/// the propositions.
pub open spec fn term_value(t: Term, p: u8) -> bool
    decreases t, 0nat,
{
    let base = match t.operand {
        Operand::Letter(id) => perm_bit(p, id),
        Operand::Group(f) => formula_value(f, p),
    };
    if t.negated { !base } else { base }
}

/// The value of an expression under permutation `p`, combined from left to right.
pub open spec fn formula_value(f: Formula, p: u8) -> bool
    decreases f, f.operators.len() + 1,
{
    prefix_value(f, p, f.operators.len())
}

/// The value of the first `n + 1` terms of an expression, combined from left to right.
pub open spec fn prefix_value(f: Formula, p: u8, n: nat) -> bool
    decreases f, n,
{
    if n >= f.terms.len() {
        false
    } else if n == 0 {
        term_value(f.terms[0], p)
    } else {
        combine(prefix_value(f, p, (n - 1) as nat), f.operators[n - 1], term_value(f.terms[n as int], p))
    }
}

/// Why an expression's text was refused.
#[derive(PartialEq, Eq, Structural, Clone, Copy, Debug)]
pub enum ParseError {
    /// A ')' with no '(' before it.
    UnmatchedClosingParenthesis,
    /// A '(' that is never closed.
    UnclosedParenthesis,
    /// A character that is no letter A to D, operator, negation, parenthesis or space.
    InvalidCharacter(char),
    /// The elements do not number one more than the operators.
    MismatchedOperatorCount,
    /// The letters of the whole expression skip one of A, B, C, D.
    NonContiguousPropositions,
}

/// Whether `c` is white space: the characters of Unicode's White_Space property, the
/// set that `char::is_whitespace` tests.
pub open spec fn is_space(c: char) -> bool {
    ('\u{9}' <= c && c <= '\u{d}') || c == ' ' || c == '\u{85}' || c == '\u{a0}' || c == '\u{1680}'
        || ('\u{2000}' <= c && c <= '\u{200a}') || c == '\u{2028}' || c == '\u{2029}' || c
        == '\u{202f}' || c == '\u{205f}' || c == '\u{3000}'
}

/// Whether `c` is white space, which the parser skips.
fn is_whitespace(c: char) -> (r: bool)
    ensures
        r == is_space(c),
{
    ('\u{9}' <= c && c <= '\u{d}') || c == ' ' || c == '\u{85}' || c == '\u{a0}' || c == '\u{1680}'
        || ('\u{2000}' <= c && c <= '\u{200a}') || c == '\u{2028}' || c == '\u{2029}' || c
        == '\u{202f}' || c == '\u{205f}' || c == '\u{3000}'
}

/// Index of the parenthesis that closes the group open at depth `depth` before
/// position `i`, or `s.len()` when none does.
pub open spec fn matching_close(s: Seq<char>, i: int, depth: int) -> int
    decreases s.len() - i,
{
    if i >= s.len() {
        s.len() as int
    } else {
        let d = if s[i] == '(' {
            depth + 1
        } else if s[i] == ')' {
            depth - 1
        } else {
            depth
        };
        if d == 0 {
            i
        } else {
            matching_close(s, i + 1, d)
        }
    }
}

/// The closing index lies between the start of the search and the end of the text.
proof fn lemma_matching_close_bounds(s: Seq<char>, i: int, depth: int)
    requires
        0 <= i <= s.len(),
    ensures
        i <= matching_close(s, i, depth) <= s.len(),
    decreases s.len() - i,
{
    if i < s.len() {
        let d = if s[i] == '(' {
            depth + 1
        } else if s[i] == ')' {
            depth - 1
        } else {
            depth
        };
        if d != 0 {
            lemma_matching_close_bounds(s, i + 1, d);
        }
    }
}

/// The terms and operators read from position `i` on, given those read before it and
/// whether a negation is pending. Letters and groups are terms; a negation marks the next
/// term only; operators are collected apart from the terms; white space is skipped.
pub open spec fn scan(
    s: Seq<char>,
    i: int,
    negated: bool,
    terms: Seq<Term>,
    ops: Seq<Operator>,
) -> Result<(Seq<Term>, Seq<Operator>), ParseError>
    decreases s.len(), s.len() - i,
{
    if i < 0 || i >= s.len() {
        Ok((terms, ops))
    } else {
        let c = s[i];
        if proposition_of(c) is Some {
            scan(
                s,
                i + 1,
                false,
                terms.push(Term { operand: Operand::Letter(proposition_of(c)->0), negated }),
                ops,
            )
        } else if c == '(' {
            let rest = s.subrange(i, s.len() as int);
            let close = matching_close(rest, 1, 1);
            if !(1 <= close < rest.len()) {
                Err(ParseError::UnclosedParenthesis)
            } else {
                match parse_spec(rest.subrange(1, close), false) {
                    Err(e) => Err(e),
                    Ok(f) => scan(
                        s,
                        i + close + 1,
                        false,
                        terms.push(Term { operand: Operand::Group(f), negated }),
                        ops,
                    ),
                }
            }
        } else if c == ')' {
            Err(ParseError::UnmatchedClosingParenthesis)
        } else if c == '!' || c == '/' {
            scan(s, i + 1, true, terms, ops)
        } else if c == '&' || c == '*' {
            scan(s, i + 1, negated, terms, ops.push(Operator::And))
        } else if c == '|' || c == '+' {
            scan(s, i + 1, negated, terms, ops.push(Operator::Or))
        } else if is_space(c) {
            scan(s, i + 1, negated, terms, ops)
        } else {
            Err(ParseError::InvalidCharacter(c))
        }
    }
}

/// The expression that `s` denotes, or why it is refused. With `validate`, the letters
/// of `s` must be contiguous from A; that check comes before the scan.
pub open spec fn parse_spec(s: Seq<char>, validate: bool) -> Result<Formula, ParseError>
    decreases s.len(), s.len() + 1,
{
    if validate && !contiguous(mentioned(s)) {
        Err(ParseError::NonContiguousPropositions)
    } else {
        match scan(s, 0, false, Seq::empty(), Seq::empty()) {
            Err(e) => Err(e),
            Ok((terms, ops)) => if terms.len() == ops.len() + 1 {
                Ok(Formula { terms, operators: ops, keys: mentioned(s) })
            } else {
                Err(ParseError::MismatchedOperatorCount)
            },
        }
    }
}

/// The text strictly between the '(' that starts `expression` and the ')' that matches
/// it, or everything after the '(' when none matches.
pub fn get_subexpression(expression: &str) -> (r: String)
    requires
        expression@.len() >= 1,
        expression@[0] == '(',
    ensures
        r@ == expression@.subrange(1, matching_close(expression@, 1, 1)),
{
    let n = expression.unicode_len();
    let mut depth: usize = 1;
    let mut j: usize = 1;
    let mut end: usize = n;
    let mut found = false;
    while j < n && !found
        invariant
            n == expression@.len(),
            1 <= j <= n,
            depth <= j,
            !found ==> 1 <= depth && end == n,
            found ==> end == matching_close(expression@, 1, 1) && end < n,
            !found ==> matching_close(expression@, j as int, depth as int) == matching_close(
                expression@,
                1,
                1,
            ),
        decreases n - j + (if found { 0int } else { 1int }),
    {
        let c = expression.get_char(j);
        if c == '(' {
            depth += 1;
        } else if c == ')' {
            depth -= 1;
        }
        if depth == 0 {
            found = true;
            end = j;
        } else {
            j += 1;
        }
    }
    proof {
        lemma_matching_close_bounds(expression@, 1, 1);
    }
    expression.substring_char(1, end).to_owned()
}

/// Whether `c` names one of the propositions A to D, in either case.
fn is_proposition_letter(c: char) -> (r: bool)
    ensures
        r == (proposition_of(c) is Some),
{
    c == 'a' || c == 'A' || c == 'b' || c == 'B' || c == 'c' || c == 'C' || c == 'd' || c == 'D'
}

impl ExpressionElement {
    fn new(element: ExpressionElementToken, negation: bool) -> (r: Self)
        ensures
            r.token == element,
            r.negation == negation,
    {
        ExpressionElement { token: element, negation }
    }

    /// The element for a proposition letter, in either case.
    fn from_proposition(proposition_letter: char, negation: bool) -> (r: Self)
        requires
            proposition_of(proposition_letter) is Some,
        ensures
            r.token == ExpressionElementToken::Proposition(proposition_of(proposition_letter)->0),
            r.negation == negation,
            r.model() == (Term {
                operand: Operand::Letter(proposition_of(proposition_letter)->0),
                negated: negation,
            }),
    {
        Self::new(
            ExpressionElementToken::Proposition(PropositionIdentifier::from_char(proposition_letter)),
            negation,
        )
    }

    /// The token of the element: a proposition or a nested expression.
    pub fn token(&self) -> (r: &ExpressionElementToken)
        ensures
            match *r {
                ExpressionElementToken::Proposition(id) => self.model().operand == Operand::Letter(id),
                ExpressionElementToken::Subexpression(e) => self.model().operand == Operand::Group(
                    e.model(),
                ),
            },
    {
        &self.token
    }

    /// Whether the element is negated.
    pub fn is_negated(&self) -> (r: bool)
        ensures
            r == self.model().negated,
    {
        self.negation
    }
}

impl Expression {
    fn new(
        elements: Vec<ExpressionElement>,
        operators: Vec<Operator>,
        propositions: PropositionTable,
    ) -> (r: Self)
        ensures
            r.elements == elements,
            r.operators == operators,
            r.propositions == propositions,
    {
        Expression { elements, operators, propositions }
    }

    /// Parses an expression. A letter A to D (either case) is a proposition; '(' opens a
    /// group that is parsed on its own as a nested expression; '!' or '/' negates the next
    /// element only; '&' or '*' is a conjunction and '|' or '+' a disjunction; spaces and
    /// other white space are skipped. With `validate_propositions`, the letters must be {A},
    /// {A, B}, {A, B, C} or {A, B, C, D}; groups are never held to that.
    pub fn parse(expression_string: &str, validate_propositions: bool) -> (r: Result<
        Expression,
        ParseError,
    >)
        ensures
            match parse_spec(expression_string@, validate_propositions) {
                Ok(f) => r is Ok && r->Ok_0.wf() && r->Ok_0.model() == f,
                Err(e) => r == Err::<Expression, ParseError>(e),
            },
            r is Ok ==> r->Ok_0.model().terms.len() == r->Ok_0.model().operators.len() + 1,
            r is Ok ==> balanced(r->Ok_0.model()),
            r is Ok && validate_propositions ==> 1 <= key_count(r->Ok_0.model().keys) <= 4,
        decreases expression_string@.len(),
    {
        let ghost s = expression_string@;
        let propositions = PropositionTable::from_expression_str(expression_string);
        if validate_propositions && !propositions.validate() {
            return Err(ParseError::NonContiguousPropositions);
        }

        let n = expression_string.unicode_len();
        let mut elements: Vec<ExpressionElement> = Vec::new();
        let mut operators: Vec<Operator> = Vec::new();
        let mut is_negated = false;
        let ghost mut terms: Seq<Term> = Seq::empty();
        let mut i: usize = 0;
        while i < n
            invariant
                n == s.len(),
                s == expression_string@,
                i <= n,
                propositions.wf(),
                propositions.keys() == mentioned(s),
                !validate_propositions || contiguous(mentioned(s)),
                forall|id: PropositionIdentifier| #[trigger]
                    propositions.contains(id) == mentions(s, id),
                terms.len() == elements@.len(),
                forall|k: int| 0 <= k < terms.len() ==> #[trigger] elements@[k].model() == terms[k],
                forall|k: int|
                    0 <= k < elements@.len() ==> match #[trigger] elements@[k].token {
                        ExpressionElementToken::Proposition(id) => propositions.contains(id),
                        ExpressionElementToken::Subexpression(e) => e.wf(),
                    },
                scan(s, i as int, is_negated, terms, operators@) == scan(
                    s,
                    0,
                    false,
                    Seq::empty(),
                    Seq::empty(),
                ),
            decreases n - i,
        {
            let c = expression_string.get_char(i);
            if is_proposition_letter(c) {
                let element = ExpressionElement::from_proposition(c, is_negated);
                proof {
                    assert(proposition_of(s[i as int]) is Some);
                    assert(mentions(s, proposition_of(c)->0));
                    terms = terms.push(element.model());
                }
                elements.push(element);
                is_negated = false;
                i += 1;
            } else if c == '(' {
                let rest = expression_string.substring_char(i, n);
                let subexpression = get_subexpression(rest);
                let sub_len = subexpression.as_str().unicode_len();
                proof {
                    lemma_matching_close_bounds(rest@, 1, 1);
                    assert(rest@ == s.subrange(i as int, s.len() as int));
                    assert(rest@[0] == s[i as int]);
                }
                if sub_len + 1 >= n - i {
                    assert(scan(s, i as int, is_negated, terms, operators@) == Err::<
                        (Seq<Term>, Seq<Operator>),
                        ParseError,
                    >(ParseError::UnclosedParenthesis));
                    return Err(ParseError::UnclosedParenthesis);
                }
                match Self::parse(subexpression.as_str(), false) {
                    Ok(e) => {
                        let element = ExpressionElement::new(
                            ExpressionElementToken::Subexpression(e),
                            is_negated,
                        );
                        proof {
                            terms = terms.push(element.model());
                        }
                        elements.push(element);
                        is_negated = false;
                        i += sub_len + 2;
                    },
                    Err(err) => {
                        return Err(err);
                    },
                }
            } else if c == ')' {
                return Err(ParseError::UnmatchedClosingParenthesis);
            } else if c == '!' || c == '/' {
                is_negated = true;
                i += 1;
            } else if c == '&' || c == '*' {
                operators.push(Operator::And);
                i += 1;
            } else if c == '|' || c == '+' {
                operators.push(Operator::Or);
                i += 1;
            } else if is_whitespace(c) {
                i += 1;
            } else {
                assert(scan(s, i as int, is_negated, terms, operators@) == Err::<
                    (Seq<Term>, Seq<Operator>),
                    ParseError,
                >(ParseError::InvalidCharacter(c)));
                return Err(ParseError::InvalidCharacter(c));
            }
        }
        if elements.len() == 0 || elements.len() - 1 != operators.len() {
            return Err(ParseError::MismatchedOperatorCount);
        }
        proof {
            if validate_propositions {
                crate::propositions::lemma_contiguous_count(mentioned(s));
            }
        }
        let r = Self::new(elements, operators, propositions);
        assert forall|k: int| 0 <= k < terms.len() implies r.model().terms[k] == terms[k] by {
            assert(r.elements@[k].model() == terms[k]);
        }
        assert(r.model().terms =~= terms);
        proof {
            r.lemma_wf_balanced();
        }
        Ok(r)
    }
}

impl Expression {
    /// Gives every proposition of the tree, in this node's table and in those of all nested
    /// expressions, its value in `permutation` (bit i holds the i-th of A, B, C, D).
    pub fn set_values(&mut self, permutation: u8)
        requires
            old(self).wf(),
        ensures
            final(self).wf(),
            final(self).model() == old(self).model(),
            final(self).assigned_to(permutation),
        decreases *old(self),
    {
        self.propositions.set_all(permutation);
        let ghost start = *self;
        let n = self.elements.len();
        let mut i: usize = 0;
        while i < n
            invariant
                n == self.elements@.len(),
                n == start.elements@.len(),
                i <= n,
                self.operators == start.operators,
                self.propositions == start.propositions,
                start.wf(),
                start.elements@.len() == old(self).elements@.len(),
                forall|k: int| 0 <= k < n ==> #[trigger] start.elements@[k] == old(self).elements@[k],
                forall|id: PropositionIdentifier| #[trigger]
                    self.propositions.contains(id) ==> self.propositions.value_of(id) == Some(
                        perm_bit(permutation, id),
                    ),
                forall|k: int| i <= k < n ==> #[trigger] self.elements@[k] == start.elements@[k],
                forall|k: int|
                    0 <= k < i ==> #[trigger] self.elements@[k].model() == start.elements@[k].model(),
                forall|k: int|
                    0 <= k < i ==> match #[trigger] self.elements@[k].token {
                        ExpressionElementToken::Proposition(id) => self.propositions.contains(id),
                        ExpressionElementToken::Subexpression(e) => e.wf() && e.assigned_to(
                            permutation,
                        ),
                    },
            decreases n - i,
        {
            assert(decreases_to!(old(self).elements => old(self).elements@[i as int]));
            match &mut self.elements[i].token {
                ExpressionElementToken::Subexpression(e) => {
                    e.set_values(permutation);
                },
                ExpressionElementToken::Proposition(_) => {},
            }
            i += 1;
        }
        assert forall|k: int| 0 <= k < n implies self.model().terms[k] == start.model().terms[k] by {
            assert(self.elements@[k].model() == start.elements@[k].model());
        }
        assert(self.model().terms =~= start.model().terms);
        assert(self.propositions.keys() == old(self).propositions.keys());
    }

    /// The value of the tree under the values its tables hold, combining the elements
    /// strictly from left to right.
    pub fn evaluate(&self) -> (r: bool)
        requires
            self.wf(),
            self.is_assigned(),
        ensures
            forall|p: u8| self.assigned_to(p) ==> r == formula_value(self.model(), p),
        decreases self, 1nat,
    {
        let mut result = self.evaluate_element(&self.elements[0]);
        let n = self.operators.len();
        let mut i: usize = 0;
        while i < n
            invariant
                self.wf(),
                self.is_assigned(),
                n == self.operators@.len(),
                i <= n,
                forall|p: u8| self.assigned_to(p) ==> result == prefix_value(self.model(), p, i as nat),
            decreases n - i,
        {
            let element = &self.elements[i + 1];
            let value = self.evaluate_element(element);
            result = match self.operators[i] {
                Operator::And => result && value,
                Operator::Or => result || value,
            };
            i += 1;
        }
        result
    }

    /// The value of one element of this node, its negation applied.
    fn evaluate_element(&self, element: &ExpressionElement) -> (r: bool)
        requires
            self.wf(),
            self.is_assigned(),
            exists|k: int| 0 <= k < self.elements@.len() && self.elements@[k] == *element,
        ensures
            forall|p: u8| self.assigned_to(p) ==> r == term_value(element.model(), p),
        decreases self, 0nat,
    {
        let ghost k = choose|k: int| 0 <= k < self.elements@.len() && self.elements@[k] == *element;
        let ghost q = choose|p: u8| self.assigned_to(p);
        let mut result = match &element.token {
            ExpressionElementToken::Proposition(p) => self.propositions.get_value(p).unwrap(),
            ExpressionElementToken::Subexpression(s) => {
                assert(s.assigned_to(q));
                s.evaluate()
            },
        };
        assert forall|p: u8| self.assigned_to(p) implies result == (match element.model().operand {
            Operand::Letter(id) => perm_bit(p, id),
            Operand::Group(f) => formula_value(f, p),
        }) by {
            assert(self.elements@[k] == *element);
            match element.token {
                ExpressionElementToken::Proposition(id) => {
                    assert(self.propositions.contains(id));
                    assert(self.propositions.value_of(id) == Some(perm_bit(p, id)));
                },
                ExpressionElementToken::Subexpression(e) => {
                    assert(e.assigned_to(p));
                },
            }
        }
        if element.negation {
            result = !result;
        }
        result
    }

    /// The number of distinct letters in the expression's text.
    pub fn proposition_count(&self) -> (r: u8)
        requires
            self.wf(),
        ensures
            r == key_count(self.model().keys),
    {
        self.propositions.count()
    }

    /// A well-formed tree has one more element than operators at every depth.
    pub proof fn lemma_wf_balanced(&self)
        requires
            self.wf(),
        ensures
            balanced(self.model()),
        decreases self,
    {
        let f = self.model();
        assert forall|i: int| 0 <= i < f.terms.len() implies match #[trigger] f.terms[i].operand {
            Operand::Letter(_) => true,
            Operand::Group(g) => balanced(g),
        } by {
            let element = self.elements@[i];
            assert(f.terms[i] == element.model());
            match element.token {
                ExpressionElementToken::Proposition(_) => {},
                ExpressionElementToken::Subexpression(e) => {
                    assert(decreases_to!(self => self.elements));
                    assert(decreases_to!(self.elements => self.elements@[i]));
                    e.lemma_wf_balanced();
                },
            }
        }
    }

    /// Under two permutations that agree on every proposition of the tree, the tree
    /// has one value.
    pub proof fn lemma_assignment_determines_value(&self, p: u8, q: u8)
        requires
            self.wf(),
            self.assigned_to(p),
            self.assigned_to(q),
        ensures
            formula_value(self.model(), p) == formula_value(self.model(), q),
        decreases self, self.model().operators.len() + 1,
    {
        self.lemma_prefix_determined(p, q, self.operators@.len());
    }

    proof fn lemma_prefix_determined(&self, p: u8, q: u8, n: nat)
        requires
            self.wf(),
            self.assigned_to(p),
            self.assigned_to(q),
            n <= self.operators@.len(),
        ensures
            prefix_value(self.model(), p, n) == prefix_value(self.model(), q, n),
        decreases self, n,
    {
        let f = self.model();
        let element = self.elements@[n as int];
        assert(f.terms[n as int] == element.model());
        match element.token {
            ExpressionElementToken::Proposition(id) => {
                assert(self.propositions.contains(id));
            },
            ExpressionElementToken::Subexpression(e) => {
                assert(decreases_to!(self => self.elements));
                assert(decreases_to!(self.elements => self.elements@[n as int]));
                e.lemma_assignment_determines_value(p, q);
            },
        }
        assert(term_value(f.terms[n as int], p) == term_value(f.terms[n as int], q));
        if n > 0 {
            self.lemma_prefix_determined(p, q, (n - 1) as nat);
        }
    }

    /// Assigning a permutation a second time changes nothing evaluation sees: the state
    /// after one `set_values(p)` and the state after a second one evaluate alike.
    pub proof fn lemma_set_values_idempotent(
        start: Expression,
        once: Expression,
        twice: Expression,
        p: u8,
    )
        requires
            start.wf(),
            once.wf() && once.model() == start.model() && once.assigned_to(p),
            twice.wf() && twice.model() == once.model() && twice.assigned_to(p),
        ensures
            once.is_assigned(),
            twice.is_assigned(),
            forall|q1: u8, q2: u8|
                once.assigned_to(q1) && twice.assigned_to(q2) ==> formula_value(once.model(), q1)
                    == formula_value(twice.model(), q2),
    {
        assert forall|q1: u8, q2: u8| once.assigned_to(q1) && twice.assigned_to(q2) implies formula_value(
            once.model(),
            q1,
        ) == formula_value(twice.model(), q2) by {
            once.lemma_assignment_determines_value(q1, p);
            twice.lemma_assignment_determines_value(q2, p);
        }
    }

    /// Assigns `permutation` (bit i holds the i-th of A, B, C, D) and evaluates.
    pub fn evaluate_permutation(&mut self, permutation: u8) -> (r: bool)
        requires
            old(self).wf(),
        ensures
            final(self).wf(),
            final(self).model() == old(self).model(),
            final(self).assigned_to(permutation),
            r == formula_value(old(self).model(), permutation),
    {
        self.set_values(permutation);
        self.evaluate()
    }

    /// The elements of the expression, in textual order.
    pub fn elements(&self) -> (r: &Vec<ExpressionElement>)
        ensures
            r@.len() == self.model().terms.len(),
            forall|i: int| 0 <= i < r@.len() ==> #[trigger] r@[i].model() == self.model().terms[i],
    {
        &self.elements
    }

    /// The operators between the elements, in textual order.
    pub fn operators(&self) -> (r: &Vec<Operator>)
        ensures
            r@ == self.model().operators,
    {
        &self.operators
    }
}

} // verus!
