use crate::error::ParseFailure;
use crate::expression::Formula;
use crate::parser::{
    closing, connect, is_operator, is_variable, parse_from, parse_group, parse_text,
};
use vstd::prelude::*;

verus! {

/// The formulas whose canonical text spells them: conjunctions and
/// disjunctions of variables that an upper-case letter names.  The canonical
/// text of a negation or of an implication uses signs that the grammar does
/// not read as such.
pub open spec fn spelled_by_text(f: Formula) -> bool
    decreases f,
{
    match f {
        Formula::And(l, r) => spelled_by_text(*l) && spelled_by_text(*r),
        Formula::Or(l, r) => spelled_by_text(*l) && spelled_by_text(*r),
        Formula::Var(name) => name.len() == 1 && is_variable(name[0]),
        _ => false,
    }
}

/// How many levels of parentheses are open behind `s`, with `open` of them
/// open before it, if none of these closes inside `s`.
pub open spec fn scan(s: Seq<char>, open: nat) -> Option<nat>
    decreases s.len(),
{
    if s.len() == 0 {
        Some(open)
    } else if s[0] == ')' {
        if open <= 1 {
            None
        } else {
            scan(s.skip(1), (open - 1) as nat)
        }
    } else if s[0] == '(' {
        scan(s.skip(1), open + 1)
    } else {
        scan(s.skip(1), open)
    }
}

/// Scanning two texts one after the other is scanning their concatenation.
pub proof fn lemma_scan_concat(a: Seq<char>, b: Seq<char>, open: nat)
    ensures
        scan(a + b, open) == match scan(a, open) {
            Some(level) => scan(b, level),
            None => None,
        },
    decreases a.len(),
{
    if a.len() == 0 {
        assert(a + b =~= b);
    } else {
        assert((a + b).skip(1) =~= a.skip(1) + b);
        assert((a + b)[0] == a[0]);
        if a[0] == ')' {
            if open > 1 {
                lemma_scan_concat(a.skip(1), b, (open - 1) as nat);
            }
        } else if a[0] == '(' {
            lemma_scan_concat(a.skip(1), b, open + 1);
        } else {
            lemma_scan_concat(a.skip(1), b, open);
        }
    }
}

/// Behind a text inside which nothing closes, the closing parenthesis is
/// looked for at the level that the text leaves open.
pub proof fn lemma_closing_behind(a: Seq<char>, rest: Seq<char>, open: nat)
    requires
        scan(a, open) is Some,
    ensures
        closing(a + rest, open) == match closing(rest, scan(a, open)->0) {
            Some(k) => Some(k + a.len()),
            None => None,
        },
    decreases a.len(),
{
    if a.len() == 0 {
        assert(a + rest =~= rest);
    } else {
        assert((a + rest).skip(1) =~= a.skip(1) + rest);
        assert((a + rest)[0] == a[0]);
        let level = if a[0] == ')' {
            (open - 1) as nat
        } else if a[0] == '(' {
            open + 1
        } else {
            open
        };
        lemma_closing_behind(a.skip(1), rest, level);
    }
}

/// A text without parentheses leaves open what was open.
pub proof fn lemma_scan_plain(s: Seq<char>, open: nat)
    requires
        forall|i: int| 0 <= i < s.len() ==> s[i] != '(' && s[i] != ')',
    ensures
        scan(s, open) == Some(open),
    decreases s.len(),
{
    if s.len() > 0 {
        lemma_scan_plain(s.skip(1), open);
    }
}

/// The canonical text of a formula closes every parenthesis that it opens,
/// and no other.
pub proof fn lemma_text_balanced(f: Formula, open: nat)
    requires
        spelled_by_text(f),
        open >= 1,
    ensures
        scan(f.text(), open) == Some(open),
    decreases f,
{
    match f {
        Formula::And(l, r) => {
            assert forall|level: nat| level >= 1 implies scan(l.text(), level) == Some(level)
                && scan(r.text(), level) == Some(level) by {
                lemma_text_balanced(*l, level);
                lemma_text_balanced(*r, level);
            }
            lemma_joined_balanced(*l, *r, seq![' ', '&', ' '], open);
        },
        Formula::Or(l, r) => {
            assert forall|level: nat| level >= 1 implies scan(l.text(), level) == Some(level)
                && scan(r.text(), level) == Some(level) by {
                lemma_text_balanced(*l, level);
                lemma_text_balanced(*r, level);
            }
            lemma_joined_balanced(*l, *r, seq![' ', 'v', ' '], open);
        },
        Formula::Var(name) => {
            lemma_scan_plain(name, open);
        },
        _ => {},
    }
}

/// The text of two operands in parentheses, with a sign between them that
/// holds no parenthesis, is balanced if theirs are.
pub proof fn lemma_joined_balanced(l: Formula, r: Formula, sign: Seq<char>, open: nat)
    requires
        spelled_by_text(l),
        spelled_by_text(r),
        open >= 1,
        sign.len() == 3,
        forall|i: int| 0 <= i < 3 ==> sign[i] != '(' && sign[i] != ')',
        forall|level: nat| level >= 1 ==> scan(l.text(), level) == Some(level),
        forall|level: nat| level >= 1 ==> scan(r.text(), level) == Some(level),
    ensures
        scan(seq!['('] + l.text() + sign + r.text() + seq![')'], open) == Some(open),
        scan(l.text() + sign + r.text(), open) == Some(open),
{
    let inner = l.text() + sign + r.text();
    assert forall|level: nat| level >= 1 implies scan(sign, level) == Some(level) by {
        lemma_scan_plain(sign, level);
    }
    assert forall|level: nat| level >= 1 implies scan(inner, level) == Some(level) by {
        lemma_scan_concat(l.text(), sign, level);
        lemma_scan_concat(l.text() + sign, r.text(), level);
    }
    let opening = seq!['('];
    let ending = seq![')'];
    assert(scan(opening, open) == Some(open + 1)) by {
        assert(scan(opening.skip(1), open + 1) == Some(open + 1));
    }
    assert(scan(ending, open + 1) == Some(open)) by {
        assert(scan(ending.skip(1), open) == Some(open));
    }
    assert(seq!['('] + l.text() + sign + r.text() + seq![')'] =~= opening + inner + ending);
    lemma_scan_concat(opening, inner, open);
    lemma_scan_concat(opening + inner, ending, open);
}

/// Two operands in parentheses with a sign between them are read as the
/// operand that the sign makes of them, if each is read as itself.
pub proof fn lemma_reads_joined(
    l: Formula,
    r: Formula,
    op: char,
    rest: Seq<char>,
    top: Option<Formula>,
)
    requires
        op == '&' || op == 'v',
        spelled_by_text(l),
        spelled_by_text(r),
        forall|behind: Seq<char>, before: Option<Formula>| #[trigger]
            parse_from(l.text() + behind, before) == parse_from(behind, Some(l)),
        forall|behind: Seq<char>, before: Option<Formula>| #[trigger]
            parse_from(r.text() + behind, before) == parse_from(behind, Some(r)),
    ensures
        parse_from(seq!['('] + l.text() + seq![' ', op, ' '] + r.text() + seq![')'] + rest, top)
            == parse_from(rest, Some(connect(op, l, r))),
{
    let sign = seq![' ', op, ' '];
    let inner = l.text() + sign + r.text();
    let s = seq!['('] + l.text() + sign + r.text() + seq![')'] + rest;
    let behind = seq![')'] + rest;
    let s1 = s.skip(1);
    assert(s[0] == '(');
    assert(s1 =~= inner + behind);
    assert(parse_from(s, top) == parse_group(s1, 0));
    assert forall|level: nat| level >= 1 implies scan(l.text(), level) == Some(level) && scan(
        r.text(),
        level,
    ) == Some(level) by {
        lemma_text_balanced(l, level);
        lemma_text_balanced(r, level);
    }
    lemma_joined_balanced(l, r, sign, 1);
    lemma_closing_behind(inner, behind, 1);
    assert(closing(behind, 1) == Some(0int));
    let k = inner.len() as int;
    assert(closing(s1, 1) == Some(k));
    assert(s1.take(k) =~= inner);
    assert(s1.skip(k + 1) =~= rest);
    let q = sign + r.text();
    assert(inner =~= l.text() + q);
    assert(parse_from(l.text() + q, None) == parse_from(q, Some(l)));
    let q1 = q.skip(1);
    let q2 = q1.skip(1);
    let q3 = q2.skip(1);
    assert(q[0] == ' ');
    assert(q1[0] == op);
    assert(q2[0] == ' ');
    assert(q3 =~= r.text() + Seq::<char>::empty());
    assert(parse_from(r.text() + Seq::<char>::empty(), None) == parse_from(
        Seq::<char>::empty(),
        Some(r),
    ));
    assert(parse_from(q3, None) == Ok::<Formula, ParseFailure>(r));
    assert(parse_from(q2, None) == parse_from(q3, None));
    assert(is_operator(op));
    assert(parse_from(q1, Some(l)) == Ok::<Formula, ParseFailure>(connect(op, l, r)));
    assert(parse_from(q, Some(l)) == parse_from(q1, Some(l)));
    assert(parse_from(inner, None) == Ok::<Formula, ParseFailure>(connect(op, l, r)));
}

/// The canonical text of a formula, wherever it stands, is read as the
/// formula.
pub proof fn lemma_reads_operand(f: Formula, rest: Seq<char>, top: Option<Formula>)
    requires
        spelled_by_text(f),
    ensures
        parse_from(f.text() + rest, top) == parse_from(rest, Some(f)),
    decreases f,
{
    match f {
        Formula::And(l, r) => {
            assert forall|behind: Seq<char>, before: Option<Formula>| #[trigger]
                parse_from(l.text() + behind, before) == parse_from(behind, Some(*l)) by {
                lemma_reads_operand(*l, behind, before);
            }
            assert forall|behind: Seq<char>, before: Option<Formula>| #[trigger]
                parse_from(r.text() + behind, before) == parse_from(behind, Some(*r)) by {
                lemma_reads_operand(*r, behind, before);
            }
            lemma_reads_joined(*l, *r, '&', rest, top);
        },
        Formula::Or(l, r) => {
            assert forall|behind: Seq<char>, before: Option<Formula>| #[trigger]
                parse_from(l.text() + behind, before) == parse_from(behind, Some(*l)) by {
                lemma_reads_operand(*l, behind, before);
            }
            assert forall|behind: Seq<char>, before: Option<Formula>| #[trigger]
                parse_from(r.text() + behind, before) == parse_from(behind, Some(*r)) by {
                lemma_reads_operand(*r, behind, before);
            }
            lemma_reads_joined(*l, *r, 'v', rest, top);
        },
        Formula::Var(name) => {
            let s = name + rest;
            assert(s[0] == name[0]);
            assert(s.skip(1) =~= rest);
            assert(name =~= seq![name[0]]);
        },
        _ => {},
    }
}

/// Reading the canonical text of a formula gives the formula back, for every
/// formula that is built of conjunctions and disjunctions of variables named
/// by one upper-case letter.
pub proof fn theorem_text_reads_back(f: Formula)
    requires
        spelled_by_text(f),
    ensures
        parse_text(f.text()) == Ok::<Formula, ParseFailure>(f),
{
    lemma_reads_operand(f, Seq::empty(), None);
    assert(f.text() + Seq::<char>::empty() =~= f.text());
}

} // verus!
