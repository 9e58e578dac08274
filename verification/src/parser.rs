use crate::error::{ParseFailure, ParserError};
use crate::expression::{Expression, Formula};
use vstd::prelude::*;

verus! {

/// Whether `c` names a variable: an upper-case ASCII letter.
pub open spec fn is_variable(c: char) -> bool {
    'A' <= c && c <= 'Z'
}

/// Whether `c` is a binary operator: `&` for and, `v` or `|` for or, `>` for
/// implies.
pub open spec fn is_operator(c: char) -> bool {
    c == '&' || c == 'v' || c == '|' || c == '>'
}

/// The formula that the operator `c` makes of two operands.
pub open spec fn connect(c: char, left: Formula, right: Formula) -> Formula {
    if c == '&' {
        Formula::And(Box::new(left), Box::new(right))
    } else if c == '>' {
        Formula::Implies(Box::new(left), Box::new(right))
    } else {
        Formula::Or(Box::new(left), Box::new(right))
    }
}

/// Where in `s` the parenthesis closes that has `open` levels open before
/// `s` begins, if it closes at all.
pub open spec fn closing(s: Seq<char>, open: nat) -> Option<int>
    decreases s.len(),
{
    if s.len() == 0 {
        None
    } else if s[0] == ')' && open <= 1 {
        Some(0)
    } else {
        let level = if s[0] == ')' {
            (open - 1) as nat
        } else if s[0] == '(' {
            open + 1
        } else {
            open
        };
        match closing(s.skip(1), level) {
            Some(k) => Some(k + 1),
            None => None,
        }
    }
}

/// How many levels are open behind `s`, with `open` of them open before it.
pub open spec fn still_open(s: Seq<char>, open: nat) -> nat
    decreases s.len(),
{
    if s.len() == 0 {
        open
    } else if s.last() == ')' {
        (still_open(s.drop_last(), open) - 1) as nat
    } else if s.last() == '(' {
        still_open(s.drop_last(), open) + 1
    } else {
        still_open(s.drop_last(), open)
    }
}

/// The formula `f` behind `negations` negation signs.
pub open spec fn negated(f: Formula, negations: nat) -> Formula
    decreases negations,
{
    if negations == 0 {
        f
    } else {
        Formula::Not(Box::new(negated(f, (negations - 1) as nat)))
    }
}

/// The formula that a text spells, read from the left with `top` the operand
/// read last.  An upper-case letter is a variable; parentheses group; `-`
/// negates the operand behind it; a binary operator joins the operand
/// before it with all that follows, so `A&B&C` is `A&(B&C)`; spaces are
/// skipped.  Of several operands in a row the last one counts.
pub open spec fn parse_from(s: Seq<char>, top: Option<Formula>) -> Result<Formula, ParseFailure>
    decreases s.len(),
{
    if s.len() == 0 {
        match top {
            Some(f) => Ok(f),
            None => Err(ParseFailure::EmptyExpression),
        }
    } else {
        let c = s[0];
        let rest = s.skip(1);
        if c == '(' {
            parse_group(rest, 0)
        } else if is_variable(c) {
            parse_from(rest, Some(Formula::Var(seq![c])))
        } else if c == '-' {
            parse_negated(rest, 1)
        } else if is_operator(c) {
            match top {
                None => Err(ParseFailure::ExpectedLeftOperand),
                Some(left) => match parse_from(rest, None) {
                    Err(e) => Err(e),
                    Ok(right) => Ok(connect(c, left, right)),
                },
            }
        } else if c == ' ' {
            parse_from(rest, top)
        } else {
            Err(ParseFailure::InvalidExpression(c))
        }
    }
}

/// The formula of a text that begins behind `negations` negation signs.
/// What they negate is the operand that follows: a variable, a group in
/// parentheses, or either behind further negation signs.  Spaces are
/// skipped; nothing to negate is a failure, and so is any other character.
pub open spec fn parse_negated(s: Seq<char>, negations: nat) -> Result<Formula, ParseFailure>
    decreases s.len(), 1nat,
{
    if s.len() == 0 {
        Err(ParseFailure::ExpectedExpressionAfterNegation)
    } else {
        let c = s[0];
        let rest = s.skip(1);
        if c == ' ' {
            parse_negated(rest, negations)
        } else if c == '-' {
            parse_negated(rest, negations + 1)
        } else if c == '(' {
            parse_group(rest, negations)
        } else if is_variable(c) {
            parse_from(rest, Some(negated(Formula::Var(seq![c]), negations)))
        } else {
            Err(ParseFailure::InvalidExpression(c))
        }
    }
}

/// The formula of a text that begins just behind an opening parenthesis: the
/// group up to the parenthesis that closes it, behind `negations` negation
/// signs, is the operand read last for what follows.
pub open spec fn parse_group(s: Seq<char>, negations: nat) -> Result<Formula, ParseFailure>
    decreases s.len(), 0nat,
{
    match closing(s, 1) {
        Some(k) => if 0 <= k < s.len() {
            match parse_from(s.take(k), None) {
                Err(e) => Err(e),
                Ok(f) => parse_from(s.skip(k + 1), Some(negated(f, negations))),
            }
        } else {
            Err(ParseFailure::UnmatchedParentheses(s, still_open(s, 1) as usize))
        },
        None => Err(ParseFailure::UnmatchedParentheses(s, still_open(s, 1) as usize)),
    }
}

/// Whether every variable of `f` is named by one upper-case letter that
/// stands in `text`.
pub open spec fn named_from(f: Formula, text: Seq<char>) -> bool
    decreases f,
{
    match f {
        Formula::And(l, r) => named_from(*l, text) && named_from(*r, text),
        Formula::Or(l, r) => named_from(*l, text) && named_from(*r, text),
        Formula::Implies(l, r) => named_from(*l, text) && named_from(*r, text),
        Formula::Not(e) => named_from(*e, text),
        Formula::Var(name) => name.len() == 1 && is_variable(name[0]) && text.contains(name[0]),
    }
}

/// The formula that a text spells.
pub open spec fn parse_text(s: Seq<char>) -> Result<Formula, ParseFailure> {
    parse_from(s, None)
}

/// The operand read last, as a formula.
pub open spec fn operand(top: Option<Expression>) -> Option<Formula> {
    match top {
        Some(e) => Some(e@),
        None => None,
    }
}

/// A closing parenthesis is found inside the text.
pub proof fn lemma_closing_in_range(s: Seq<char>, open: nat)
    ensures
        closing(s, open) matches Some(k) ==> 0 <= k < s.len(),
    decreases s.len(),
{
    if s.len() > 0 && !(s[0] == ')' && open <= 1) {
        let level = if s[0] == ')' {
            (open - 1) as nat
        } else if s[0] == '(' {
            open + 1
        } else {
            open
        };
        lemma_closing_in_range(s.skip(1), level);
    }
}

/// The characters of a text, in order.
pub(crate) fn characters(input: &str) -> (chars: Vec<char>)
    ensures
        chars@ == input@,
{
    let mut chars: Vec<char> = Vec::new();
    for c in it: input.chars()
        invariant
            chars@ == it.seq().take(it.index() as int),
            it.seq() == input@,
    {
        chars.push(c);
    }
    chars
}

/// The text that a run of characters makes.
fn text_of(chars: &Vec<char>) -> (text: String)
    ensures
        text@ == chars@,
{
    let mut text = String::new();
    let mut i: usize = 0;
    while i < chars.len()
        invariant
            i <= chars.len(),
            text@ == chars@.take(i as int),
        decreases chars.len() - i,
    {
        text.push(chars[i]);
        assert(text@ =~= chars@.take(i as int + 1));
        i += 1;
    }
    assert(chars@.take(chars.len() as int) =~= chars@);
    text
}

/// The expression behind `negations` negation signs.
fn negate(e: Expression, negations: usize) -> (r: Expression)
    ensures
        r@ == negated(e@, negations as nat),
{
    let ghost inner = e@;
    let mut r = e;
    let mut k: usize = 0;
    while k < negations
        invariant
            k <= negations,
            r@ == negated(inner, k as nat),
        decreases negations - k,
    {
        r = Expression::Not(r.wrap());
        k += 1;
    }
    r
}

/// Reads a formula from a text, from the left.
pub struct Parser {
    chars: Vec<char>,
    pos: usize,
}

impl Parser {
    #[verifier::type_invariant]
    spec fn in_range(self) -> bool {
        self.pos <= self.chars.len()
    }

    /// What is left to read.
    pub closed spec fn remaining(&self) -> Seq<char> {
        self.chars@.skip(self.pos as int)
    }

    /// A parser at the start of `input`.
    pub fn new(input: &str) -> (parser: Self)
        ensures
            parser.remaining() == input@,
    {
        Parser::over(characters(input))
    }

    /// A parser at the start of `chars`.
    fn over(chars: Vec<char>) -> (parser: Self)
        ensures
            parser.remaining() == chars@,
    {
        let parser = Parser { chars, pos: 0 };
        assert(parser.chars@.skip(0) =~= parser.chars@);
        parser
    }

    /// Reads what is left as one formula.  All of the text is read on
    /// success.
    pub fn parse(&mut self) -> (r: Result<Expression, ParserError>)
        ensures
            match r {
                Ok(e) => parse_text(old(self).remaining()) == Ok::<Formula, ParseFailure>(e@)
                    && final(self).remaining().len() == 0,
                Err(e) => parse_text(old(self).remaining()) == Err::<Formula, ParseFailure>(e@),
            },
            !(r matches Err(ParserError::InvalidOperator(_))),
            r matches Ok(e) ==> named_from(e@, old(self).remaining()),
        decreases old(self).remaining().len(), 1nat,
    {
        let mut top: Option<Expression> = None;
        let ghost start = self.remaining();
        proof {
            lemma_operators_are_valid(start, None, 0);
            lemma_reads_names(start, None, 0, start);
        }
        loop
            invariant
                start == old(self).remaining(),
                !(parse_text(start) matches Err(ParseFailure::InvalidOperator(_))),
                parse_text(start) matches Ok(f) ==> named_from(f, start),
                parse_from(self.remaining(), operand(top)) == parse_text(start),
                self.remaining().len() <= start.len(),
            decreases self.remaining().len(),
        {
            proof {
                use_type_invariant(&*self);
            }
            if self.pos >= self.chars.len() {
                assert(self.remaining().len() == 0);
                return match top {
                    Some(e) => Ok(e),
                    None => Err(ParserError::EmptyExpression),
                };
            }
            let c = self.chars[self.pos];
            let ghost before = self.remaining();
            self.pos += 1;
            assert(self.remaining() =~= before.skip(1));
            assert(before[0] == c);
            if c == '(' {
                match self.handle_parenthesis(0) {
                    Ok(e) => {
                        top = Some(e);
                    },
                    Err(e) => {
                        return Err(e);
                    },
                }
            } else if 'A' <= c && c <= 'Z' {
                top = Some(Parser::handle_variable(c));
            } else if c == '-' {
                match self.handle_negation() {
                    Ok(e) => {
                        top = Some(e);
                    },
                    Err(e) => {
                        return Err(e);
                    },
                }
            } else if c == '&' || c == 'v' || c == '>' || c == '|' {
                assert(before =~= seq![c] + self.remaining());
                return self.handle_binary_operator(top, c);
            } else if c == ' ' {
            } else {
                return Err(ParserError::InvalidExpression(c));
            }
        }
    }

    /// Reads the group behind an opening parenthesis, which stands behind
    /// `negations` negation signs.
    fn handle_parenthesis(&mut self, negations: usize) -> (r: Result<Expression, ParserError>)
        requires
            old(self).remaining().len() < old(self).chars.len(),
        ensures
            final(self).remaining().len() < old(self).remaining().len() || r is Err,
            match r {
                Ok(e) => parse_group(old(self).remaining(), negations as nat) == parse_from(
                    final(self).remaining(),
                    Some(e@),
                ),
                Err(e) => parse_group(old(self).remaining(), negations as nat) == Err::<
                    Formula,
                    ParseFailure,
                >(e@),
            },
        decreases old(self).remaining().len(), 0nat,
    {
        let inner = self.extract_bracket_contents()?;
        let mut group = Parser::over(inner);
        let e = group.parse()?;
        Ok(negate(e, negations))
    }

    /// The variable that the letter `c` names.
    fn handle_variable(c: char) -> (e: Expression)
        ensures
            e@ == Formula::Var(seq![c]),
    {
        let mut name = String::new();
        name.push(c);
        assert(name@ =~= seq![c]);
        Expression::Var(name)
    }

    /// Reads the operand of a negation sign.
    fn handle_negation(&mut self) -> (r: Result<Expression, ParserError>)
        requires
            old(self).remaining().len() < old(self).chars.len(),
        ensures
            final(self).remaining().len() < old(self).remaining().len() || r is Err,
            match r {
                Ok(e) => parse_negated(old(self).remaining(), 1) == parse_from(
                    final(self).remaining(),
                    Some(e@),
                ),
                Err(e) => parse_negated(old(self).remaining(), 1) == Err::<
                    Formula,
                    ParseFailure,
                >(e@),
            },
        decreases old(self).remaining().len(), 2nat,
    {
        self.parse_negation()
    }

    /// Reads what a negation sign negates: a variable or a group in
    /// parentheses, behind further negation signs if there are any.  Spaces
    /// are skipped; any other character is refused.
    fn parse_negation(&mut self) -> (r: Result<Expression, ParserError>)
        requires
            old(self).remaining().len() < old(self).chars.len(),
        ensures
            final(self).remaining().len() < old(self).remaining().len() || r is Err,
            match r {
                Ok(e) => parse_negated(old(self).remaining(), 1) == parse_from(
                    final(self).remaining(),
                    Some(e@),
                ),
                Err(e) => parse_negated(old(self).remaining(), 1) == Err::<
                    Formula,
                    ParseFailure,
                >(e@),
            },
        decreases old(self).remaining().len(), 1nat,
    {
        let ghost start = self.remaining();
        let mut negations: usize = 1;
        loop
            invariant
                start == old(self).remaining(),
                start.len() < self.chars.len(),
                self.remaining().len() <= start.len(),
                1 <= negations <= 1 + start.len() - self.remaining().len(),
                parse_negated(self.remaining(), negations as nat) == parse_negated(start, 1),
            decreases self.remaining().len(),
        {
            proof {
                use_type_invariant(&*self);
            }
            if self.pos >= self.chars.len() {
                assert(self.remaining().len() == 0);
                return Err(ParserError::ExpectedExpressionAfterNegation);
            }
            let next = self.chars[self.pos];
            let ghost before = self.remaining();
            self.pos += 1;
            assert(self.remaining() =~= before.skip(1));
            assert(before[0] == next);
            if next == ' ' {
            } else if next == '-' {
                negations += 1;
            } else if next == '(' {
                return self.handle_parenthesis(negations);
            } else if 'A' <= next && next <= 'Z' {
                return Ok(negate(Parser::handle_variable(next), negations));
            } else {
                return Err(ParserError::InvalidExpression(next));
            }
        }
    }

    /// Joins the operand read last with all that follows the operator.
    fn handle_binary_operator(&mut self, top: Option<Expression>, operator: char) -> (r: Result<
        Expression,
        ParserError,
    >)
        requires
            is_operator(operator),
        ensures
            ({
                let s = seq![operator] + old(self).remaining();
                match r {
                    Ok(e) => parse_from(s, operand(top)) == Ok::<Formula, ParseFailure>(e@)
                        && final(self).remaining().len() == 0,
                    Err(e) => parse_from(s, operand(top)) == Err::<Formula, ParseFailure>(e@),
                }
            }),
        decreases old(self).remaining().len(), 3nat,
    {
        assert((seq![operator] + self.remaining()).skip(1) =~= self.remaining());
        match top {
            None => Err(ParserError::ExpectedLeftOperand),
            Some(left) => self.parse_binary_operation(operator, left),
        }
    }

    /// Reads the right operand, which is all that is left, and joins it with
    /// `left`.
    fn parse_binary_operation(&mut self, operator: char, left: Expression) -> (r: Result<
        Expression,
        ParserError,
    >)
        ensures
            match (r, parse_text(old(self).remaining())) {
                (Ok(e), Ok(right)) => is_operator(operator) && e@ == connect(
                    operator,
                    left@,
                    right,
                ) && final(self).remaining().len() == 0,
                (Ok(e), Err(_)) => false,
                (Err(e), Err(f)) => e@ == f,
                (Err(e), Ok(_)) => !is_operator(operator) && e@
                    == ParseFailure::InvalidOperator(operator),
            },
        decreases old(self).remaining().len(), 2nat,
    {
        let ghost s = self.remaining();
        self.consume_whitespace();
        proof {
            lemma_leading_spaces(s, None);
            lemma_leading_spaces_shorter(s);
        }
        let right = self.parse()?;
        if operator == '&' {
            Ok(Expression::And(left.wrap(), right.wrap()))
        } else if operator == 'v' || operator == '|' {
            Ok(Expression::Or(left.wrap(), right.wrap()))
        } else if operator == '>' {
            Ok(Expression::Implies(left.wrap(), right.wrap()))
        } else {
            Err(ParserError::InvalidOperator(operator))
        }
    }

    /// Skips the spaces at the front of what is left.
    fn consume_whitespace(&mut self)
        ensures
            final(self).remaining() == without_leading_spaces(old(self).remaining()),
    {
        let ghost s = self.remaining();
        loop
            invariant
                s == old(self).remaining(),
                without_leading_spaces(self.remaining()) == without_leading_spaces(s),
            decreases self.remaining().len(),
        {
            proof {
                use_type_invariant(&*self);
            }
            if self.pos >= self.chars.len() || self.chars[self.pos] != ' ' {
                assert(self.remaining().len() > 0 ==> self.remaining()[0]
                    == self.chars[self.pos as int]);
                return ;
            }
            assert(self.remaining()[0] == ' ');
            let ghost before = self.remaining();
            self.pos += 1;
            assert(self.remaining() =~= before.skip(1));
        }
    }

    /// Reads up to the parenthesis that closes the one just read, and hands
    /// out what stands between the two.
    fn extract_bracket_contents(&mut self) -> (r: Result<Vec<char>, ParserError>)
        requires
            old(self).remaining().len() < old(self).chars.len(),
        ensures
            ({
                let s = old(self).remaining();
                match r {
                    Ok(inner) => closing(s, 1) matches Some(k) && 0 <= k < s.len() && inner@
                        == s.take(k) && final(self).remaining() == s.skip(k + 1),
                    Err(e) => closing(s, 1) is None && e@ == ParseFailure::UnmatchedParentheses(
                        s,
                        still_open(s, 1) as usize,
                    ),
                }
            }),
    {
        let ghost s = self.remaining();
        let mut bracket: Vec<char> = Vec::new();
        let mut bracket_count: usize = 1;
        let ghost mut i: int = 0;
        assert(s.skip(0) =~= s);
        assert(s.take(0) =~= Seq::<char>::empty());
        loop
            invariant
                0 <= i <= s.len(),
                s == old(self).remaining(),
                s.len() < self.chars.len(),
                self.remaining() == s.skip(i),
                bracket@ == s.take(i),
                1 <= bracket_count <= i + 1,
                still_open(s.take(i), 1) == bracket_count,
                closing(s, 1) == match closing(s.skip(i), bracket_count as nat) {
                    Some(k) => Some(k + i),
                    None => None,
                },
            decreases s.len() - i,
        {
            proof {
                use_type_invariant(&*self);
            }
            if self.pos >= self.chars.len() {
                assert(self.remaining().len() == 0);
                assert(i == s.len());
                assert(s.take(i) =~= s);
                return Err(ParserError::UnmatchedParentheses(text_of(&bracket), bracket_count));
            }
            let c = self.chars[self.pos];
            let ghost before = self.remaining();
            self.pos += 1;
            assert(self.remaining() =~= before.skip(1));
            assert(before[0] == c);
            assert(s.skip(i).skip(1) =~= s.skip(i + 1));
            assert(s.take(i + 1).drop_last() =~= s.take(i));
            assert(s.take(i + 1).last() == c);
            if c == ')' {
                if bracket_count == 1 {
                    return Ok(bracket);
                }
                bracket_count -= 1;
            } else if c == '(' {
                bracket_count += 1;
            }
            bracket.push(c);
            assert(bracket@ =~= s.take(i + 1));
            proof {
                i = i + 1;
            }
        }
    }
}

/// No text fails for want of a valid operator: a character is taken for an
/// operator only if it is one.
pub proof fn lemma_operators_are_valid(s: Seq<char>, top: Option<Formula>, negations: nat)
    ensures
        !(parse_from(s, top) matches Err(ParseFailure::InvalidOperator(_))),
        !(parse_negated(s, negations) matches Err(ParseFailure::InvalidOperator(_))),
        !(parse_group(s, negations) matches Err(ParseFailure::InvalidOperator(_))),
    decreases s.len(),
{
    match closing(s, 1) {
        Some(k) => {
            if 0 <= k < s.len() {
                lemma_operators_are_valid(s.take(k), None, 0);
                match parse_from(s.take(k), None) {
                    Ok(f) => {
                        lemma_operators_are_valid(
                            s.skip(k + 1),
                            Some(negated(f, negations)),
                            0,
                        );
                    },
                    Err(_) => {},
                }
            }
        },
        None => {},
    }
    if s.len() > 0 {
        let c = s[0];
        let rest = s.skip(1);
        lemma_operators_are_valid(rest, None, 0);
        lemma_operators_are_valid(rest, None, 1);
        lemma_operators_are_valid(rest, top, negations);
        lemma_operators_are_valid(rest, top, negations + 1);
        lemma_operators_are_valid(rest, Some(Formula::Var(seq![c])), 0);
        lemma_operators_are_valid(rest, Some(negated(Formula::Var(seq![c]), negations)), 0);
    }
}

/// Negation signs add no variable.
pub proof fn lemma_negated_named(f: Formula, negations: nat, text: Seq<char>)
    requires
        named_from(f, text),
    ensures
        named_from(negated(f, negations), text),
    decreases negations,
{
    if negations > 0 {
        lemma_negated_named(f, (negations - 1) as nat, text);
    }
}

/// A formula that is read from a part of a text holds no variable but those
/// that upper-case letters of the text name: no other character ends up in
/// what is read.
pub proof fn lemma_reads_names(
    s: Seq<char>,
    top: Option<Formula>,
    negations: nat,
    text: Seq<char>,
)
    requires
        forall|i: int| 0 <= i < s.len() ==> text.contains(#[trigger] s[i]),
        top matches Some(f) ==> named_from(f, text),
    ensures
        parse_from(s, top) matches Ok(f) ==> named_from(f, text),
        parse_negated(s, negations) matches Ok(f) ==> named_from(f, text),
        parse_group(s, negations) matches Ok(f) ==> named_from(f, text),
    decreases s.len(),
{
    match closing(s, 1) {
        Some(k) => {
            if 0 <= k < s.len() {
                let inner = s.take(k);
                let after = s.skip(k + 1);
                assert forall|i: int| 0 <= i < inner.len() implies text.contains(
                    #[trigger] inner[i],
                ) by {
                    assert(inner[i] == s[i]);
                }
                assert forall|i: int| 0 <= i < after.len() implies text.contains(
                    #[trigger] after[i],
                ) by {
                    assert(after[i] == s[i + k + 1]);
                }
                lemma_reads_names(inner, None, 0, text);
                match parse_from(inner, None) {
                    Ok(f) => {
                        lemma_negated_named(f, negations, text);
                        lemma_reads_names(after, Some(negated(f, negations)), 0, text);
                    },
                    Err(_) => {},
                }
            }
        },
        None => {},
    }
    if s.len() > 0 {
        let c = s[0];
        let rest = s.skip(1);
        assert(text.contains(s[0]));
        assert forall|i: int| 0 <= i < rest.len() implies text.contains(#[trigger] rest[i]) by {
            assert(rest[i] == s[i + 1]);
        }
        lemma_reads_names(rest, None, 0, text);
        lemma_reads_names(rest, None, 1, text);
        lemma_reads_names(rest, top, negations, text);
        lemma_reads_names(rest, top, negations + 1, text);
        if is_variable(c) {
            let v = Formula::Var(seq![c]);
            assert(named_from(v, text));
            lemma_negated_named(v, negations, text);
            lemma_reads_names(rest, Some(v), 0, text);
            lemma_reads_names(rest, Some(negated(v, negations)), 0, text);
        }
    }
}

/// The text behind its leading spaces.
pub open spec fn without_leading_spaces(s: Seq<char>) -> Seq<char>
    decreases s.len(),
{
    if s.len() > 0 && s[0] == ' ' {
        without_leading_spaces(s.skip(1))
    } else {
        s
    }
}

/// Dropping leading spaces makes a text no longer.
pub proof fn lemma_leading_spaces_shorter(s: Seq<char>)
    ensures
        without_leading_spaces(s).len() <= s.len(),
    decreases s.len(),
{
    if s.len() > 0 && s[0] == ' ' {
        lemma_leading_spaces_shorter(s.skip(1));
    }
}

/// Leading spaces do not change what a text spells.
pub proof fn lemma_leading_spaces(s: Seq<char>, top: Option<Formula>)
    ensures
        parse_from(without_leading_spaces(s), top) == parse_from(s, top),
    decreases s.len(),
{
    if s.len() > 0 && s[0] == ' ' {
        lemma_leading_spaces(s.skip(1), top);
    }
}

} // verus!
