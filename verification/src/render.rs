use vstd::prelude::*;
use vstd::string::StringExecFns;

use crate::expr::GenericExpression;
use crate::semantics::net_of;
use crate::semantics::wf;
use crate::simplify::lemma_depths_at;
use crate::storage::ExpressionStorage;
use crate::term::{is_leaf, Term};

verus! {

/// The decimal digit character for `d` in `0..10`.
pub open spec fn digit_char(d: int) -> char {
    if d == 0 {
        '0'
    } else if d == 1 {
        '1'
    } else if d == 2 {
        '2'
    } else if d == 3 {
        '3'
    } else if d == 4 {
        '4'
    } else if d == 5 {
        '5'
    } else if d == 6 {
        '6'
    } else if d == 7 {
        '7'
    } else if d == 8 {
        '8'
    } else {
        '9'
    }
}

/// The decimal digits of a nonnegative number, most significant first.
pub open spec fn dec_digits(n: int) -> Seq<char>
    decreases n,
{
    if n < 10 {
        seq![digit_char(n)]
    } else {
        dec_digits(n / 10).push(digit_char(n % 10))
    }
}

/// The decimal rendering of a number, with a leading minus sign when
/// negative.
pub open spec fn dec_rep(n: int) -> Seq<char> {
    if n < 0 {
        seq!['-'] + dec_digits(-n)
    } else {
        dec_digits(n)
    }
}

/// The operator glyph, as the display form writes it.
pub open spec fn glyph(t: Term) -> Seq<char> {
    match t {
        Term::Add => "+"@,
        Term::Sub => "-"@,
        Term::Mul => "*"@,
        Term::Div => "/"@,
        Term::Mod => "%"@,
        Term::And => "&&"@,
        Term::Or => "||"@,
        Term::Gte => ">="@,
        Term::Lt => "<"@,
        _ => ""@,
    }
}

/// What an opcode renders from its two operands' renderings, the left
/// operand's text first.
pub open spec fn combine(t: Term, s1: Seq<char>, s2: Seq<char>) -> Seq<char> {
    if t is Min {
        "min("@ + s1 + ", "@ + s2 + ")"@
    } else if t is Max {
        "max("@ + s1 + ", "@ + s2 + ")"@
    } else {
        "("@ + s1 + glyph(t) + s2 + ")"@
    }
}

/// The rendering stack after the terms are walked: literals and variables
/// push their text, opcodes pop the left then the right operand's text and
/// push the combined form.
pub open spec fn render_stack(s: Seq<Term>, st: Seq<Seq<char>>) -> Seq<Seq<char>>
    decreases s.len(),
{
    if s.len() == 0 {
        st
    } else {
        let st2 = match s[0] {
            Term::Num(n) => st.push(dec_rep(n as int)),
            Term::Var(c) => st.push(seq![c]),
            _ => if st.len() >= 2 {
                st.take(st.len() - 2).push(combine(s[0], st[st.len() - 1], st[st.len() - 2]))
            } else {
                st
            },
        };
        render_stack(s.drop_first(), st2)
    }
}

/// The display form of a term sequence: the top of the rendering stack.
pub open spec fn spec_render(s: Seq<Term>) -> Seq<char> {
    let st = render_stack(s, Seq::<Seq<char>>::empty());
    if st.len() > 0 {
        st.last()
    } else {
        Seq::<char>::empty()
    }
}

/// Relies on std's `String::push`: appends the one character at the end.
#[verifier::external_body]
fn push_char(s: &mut String, c: char)
    ensures
        final(s)@ == old(s)@.push(c),
{
    s.push(c);
}

/// Append the decimal digits of `m`, most significant first.
fn push_dec(s: &mut String, m: u64)
    ensures
        final(s)@ == old(s)@ + dec_digits(m as int),
    decreases m,
{
    if m < 10 {
        let c = match m {
            0 => '0',
            1 => '1',
            2 => '2',
            3 => '3',
            4 => '4',
            5 => '5',
            6 => '6',
            7 => '7',
            8 => '8',
            _ => '9',
        };
        push_char(s, c);
        proof {
            assert(c == digit_char(m as int));
            assert(old(s)@.push(c) =~= old(s)@ + seq![digit_char(m as int)]);
        }
    } else {
        push_dec(s, m / 10);
        let d = m % 10;
        let c = match d {
            0 => '0',
            1 => '1',
            2 => '2',
            3 => '3',
            4 => '4',
            5 => '5',
            6 => '6',
            7 => '7',
            8 => '8',
            _ => '9',
        };
        push_char(s, c);
        proof {
            assert(c == digit_char(d as int));
            assert((old(s)@ + dec_digits(m as int / 10)).push(c) =~= old(s)@ + dec_digits(
                m as int,
            ));
        }
    }
}

/// The decimal text of a literal.
fn render_num(n: i32) -> (r: String)
    ensures
        r@ == dec_rep(n as int),
{
    let mut out = String::new();
    if n < 0 {
        push_char(&mut out, '-');
        let m: u64 = (-(n as i64)) as u64;
        proof {
            assert(Seq::<char>::empty().push('-') =~= seq!['-']);
        }
        push_dec(&mut out, m);
    } else {
        let m: u64 = n as u64;
        proof {
            assert(Seq::<char>::empty() + dec_digits(m as int) =~= dec_digits(m as int));
        }
        push_dec(&mut out, m);
    }
    proof {
        if n < 0 {
            assert(seq!['-'] + dec_digits(0 - n as int) =~= dec_rep(n as int));
        }
    }
    out
}

impl<S: ExpressionStorage> GenericExpression<S> {
    /// The display form of the expression, built by a stack machine over
    /// the postfix stream: literals and variables print themselves,
    /// `min` and `max` print as calls, every other opcode parenthesizes
    /// its operands around its glyph. Deterministic for a given term
    /// sequence.
    pub fn render(&self) -> (r: String)
        requires
            wf(self@),
        ensures
            r@ == spec_render(self@),
    {
        let ghost s = self@;
        let n = self.len();
        let mut stack: Vec<String> = Vec::new();
        let mut i: usize = 0;
        proof {
            assert(s.take(0) =~= Seq::<Term>::empty());
            assert(s.skip(0) =~= s);
            assert(net_of(Seq::<Term>::empty()) == 0);
            assert(stack@.map_values(|x: String| x@) =~= Seq::<Seq<char>>::empty());
        }
        while i < n
            invariant
                n == s.len(),
                i <= n,
                s == self@,
                wf(s),
                stack@.len() == net_of(s.take(i as int)),
                render_stack(s, Seq::<Seq<char>>::empty()) == render_stack(
                    s.skip(i as int),
                    stack@.map_values(|x: String| x@),
                ),
            decreases n - i,
        {
            let ghost tail = s.skip(i as int);
            let ghost cur = stack@.map_values(|x: String| x@);
            proof {
                assert(tail[0] == s[i as int]);
                assert(tail.drop_first() =~= s.skip(i as int + 1));
                assert(s.take(i + 1 as int) =~= s.take(i as int) + seq![s[i as int]]);
                crate::semantics::lemma_net_append(s.take(i as int), seq![s[i as int]]);
                assert(seq![s[i as int]].drop_first() =~= Seq::<Term>::empty());
                assert(seq![s[i as int]][0] == s[i as int]);
            }
            let t = self.terms.read(i);
            match t {
                Term::Num(v) => {
                    let txt = render_num(v);
                    stack.push(txt);
                    proof {
                        assert(stack@.map_values(|x: String| x@) =~= cur.push(dec_rep(v as int)));
                        assert(net_of(Seq::<Term>::empty()) == 0);
                        assert(is_leaf(s[i as int]));
                        assert(net_of(seq![s[i as int]]) == 1);
                        assert(net_of(s.take(i as int + 1)) == net_of(s.take(i as int)) + 1);
                    }
                },
                Term::Var(c) => {
                    let mut txt = String::new();
                    push_char(&mut txt, c);
                    stack.push(txt);
                    proof {
                        assert(txt@ =~= seq![c]);
                        assert(stack@.map_values(|x: String| x@) =~= cur.push(seq![c]));
                        assert(net_of(Seq::<Term>::empty()) == 0);
                        assert(is_leaf(s[i as int]));
                        assert(net_of(seq![s[i as int]]) == 1);
                        assert(net_of(s.take(i as int + 1)) == net_of(s.take(i as int)) + 1);
                    }
                },
                _ => {
                    proof {
                        lemma_depths_at(s, 0, i as int);
                    }
                    let s1 = stack.pop().unwrap();
                    let s2 = stack.pop().unwrap();
                    let mut out = String::new();
                    let is_minmax = matches!(t, Term::Min) || matches!(t, Term::Max);
                    if matches!(t, Term::Min) {
                        out.append("min(");
                    } else if matches!(t, Term::Max) {
                        out.append("max(");
                    } else {
                        out.append("(");
                    }
                    out.append(s1.as_str());
                    if is_minmax {
                        out.append(", ");
                    } else {
                        match t {
                            Term::Add => out.append("+"),
                            Term::Sub => out.append("-"),
                            Term::Mul => out.append("*"),
                            Term::Div => out.append("/"),
                            Term::Mod => out.append("%"),
                            Term::And => out.append("&&"),
                            Term::Or => out.append("||"),
                            Term::Gte => out.append(">="),
                            _ => out.append("<"),
                        }
                    }
                    out.append(s2.as_str());
                    out.append(")");
                    proof {
                        assert(out@ == combine(t, s1@, s2@)) by {
                            assert(s1@ == cur[cur.len() - 1]);
                            assert(s2@ == cur[cur.len() - 2]);
                        }
                    }
                    stack.push(out);
                    proof {
                        assert(stack@.map_values(|x: String| x@) =~= cur.take(cur.len() - 2).push(
                            combine(t, cur[cur.len() - 1], cur[cur.len() - 2]),
                        ));
                        assert(net_of(Seq::<Term>::empty()) == 0);
                        assert(!is_leaf(s[i as int]));
                        assert(net_of(seq![s[i as int]]) == -1int);
                        assert(net_of(s.take(i as int + 1)) == net_of(s.take(i as int)) - 1);
                    }
                },
            }
            i = i + 1;
        }
        proof {
            assert(s.skip(n as int) =~= Seq::<Term>::empty());
            assert(s.take(n as int) =~= s);
        }
        let top = stack.pop().unwrap();
        top
    }
}

} // verus!
