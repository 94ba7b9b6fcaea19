use std::collections::HashMap;
use vstd::prelude::*;

use crate::expr::GenericExpression;
use crate::semantics::{walk64, RunOut};
use crate::storage::ExpressionStorage;
use crate::term::Term;

verus! {

/// A variable environment as a mathematical map to mathematical integers.
pub open spec fn env_view(m: Map<char, usize>) -> Map<char, int> {
    Map::new(|c: char| m.dom().contains(c), |c: char| m[c] as int)
}

/// The environment that binds every variable to the same value.
pub open spec fn const_env(value: int) -> Map<char, int> {
    Map::new(|c: char| true, |c: char| value)
}

/// An evaluation stack as a sequence of mathematical integers.
pub open spec fn int_stack(v: Seq<i64>) -> Seq<int> {
    v.map_values(|x: i64| x as int)
}

/// Relies on std's `HashMap::get`: `Some` of the value stored under the
/// key, `None` when the key is absent. vstd gives `char` keys no hash
/// model, so this lookup is taken on trust.
#[verifier::external_body]
fn env_get(m: &HashMap<char, usize>, c: char) -> (r: Option<usize>)
    ensures
        r == if m@.dom().contains(c) {
            Some(m@[c])
        } else {
            None::<usize>
        },
{
    m.get(&c).copied()
}

impl<S: ExpressionStorage> GenericExpression<S> {
    /// Evaluate against a variable environment, using the given scratch
    /// stack. Walks the postfix stream with checked 64-bit arithmetic:
    /// literals and bindings push, opcodes pop the left then the right
    /// operand and push the opcode's value. Returns `None` at the first
    /// unbound variable, and the top of the final stack otherwise (`None`
    /// when nothing is left on it).
    pub fn exec_stack(&self, variables: &HashMap<char, usize>, stack: &mut Vec<i64>) -> (r: Option<
        usize,
    >)
        requires
            forall|c: char| variables@.dom().contains(c) ==> #[trigger] variables@[c] <= i64::MAX,
            !(walk64(self@, int_stack(old(stack)@), env_view(variables@)) is Stuck),
            walk64(self@, int_stack(old(stack)@), env_view(variables@)) matches RunOut::Going(st)
                ==> (st.len() > 0 ==> 0 <= st.last() <= usize::MAX),
        ensures
            match walk64(self@, int_stack(old(stack)@), env_view(variables@)) {
                RunOut::Going(st) => r == if st.len() > 0 {
                    Some(st.last() as usize)
                } else {
                    None::<usize>
                } && int_stack(final(stack)@) == if st.len() > 0 {
                    st.drop_last()
                } else {
                    st
                },
                _ => r is None,
            },
    {
        let ghost s = self@;
        let ghost env = env_view(variables@);
        let ghost st0 = int_stack(old(stack)@);
        let n = self.len();
        let mut i: usize = 0;
        proof {
            assert(s.skip(0) =~= s);
        }
        while i < n
            invariant
                n == s.len(),
                i <= n,
                forall|c: char| variables@.dom().contains(c) ==> #[trigger] variables@[c]
                    <= i64::MAX,
                env == env_view(variables@),
                s == self@,
                st0 == int_stack(old(stack)@),
                walk64(s, st0, env) == walk64(s.skip(i as int), int_stack(stack@), env),
                !(walk64(s, st0, env) is Stuck),
            decreases n - i,
        {
            let ghost tail = s.skip(i as int);
            let ghost cur = int_stack(stack@);
            proof {
                assert(tail[0] == s[i as int]);
                assert(tail.drop_first() =~= s.skip(i as int + 1));
            }
            let t = self.terms.read(i);
            match t {
                Term::Num(v) => {
                    stack.push(v as i64);
                    proof {
                        assert(int_stack(stack@) =~= cur.push((v as i64) as int));
                    }
                },
                Term::Var(c) => {
                    match env_get(variables, c) {
                        Some(v) => {
                            stack.push(v as i64);
                            proof {
                                assert(env.dom().contains(c) && env[c] == v as int);
                                assert(int_stack(stack@) =~= cur.push(v as int));
                            }
                        },
                        None => {
                            proof {
                                assert(!env.dom().contains(c));
                                assert(walk64(tail, cur, env) is MissingVar);
                            }
                            return None;
                        },
                    }
                },
                _ => {
                    proof {
                        if cur.len() < 2 {
                            assert(walk64(tail, cur, env) is Stuck);
                        }
                    }
                    let a = stack.pop().unwrap();
                    let b = stack.pop().unwrap();
                    proof {
                        assert(a as int == cur[cur.len() - 1]);
                        assert(b as int == cur[cur.len() - 2]);
                        assert(int_stack(stack@) =~= cur.take(cur.len() - 2));
                        if !crate::term::op_ok64(t, a as int, b as int) {
                            assert(walk64(tail, cur, env) is Stuck);
                        }
                    }
                    let c = t.as_op(a, b).unwrap();
                    stack.push(c);
                    proof {
                        assert(int_stack(stack@) =~= cur.take(cur.len() - 2).push(c as int));
                    }
                },
            }
            i = i + 1;
        }
        proof {
            assert(s.skip(n as int) =~= Seq::<Term>::empty());
        }
        let ghost endv = stack@;
        let out = stack.pop();
        match out {
            Some(v) => {
                proof {
                    assert(int_stack(stack@) =~= int_stack(endv).drop_last());
                }
                Some(v as usize)
            },
            None => None,
        }
    }

    /// Evaluate against a variable environment with a fresh scratch stack.
    pub fn exec(&self, variables: &HashMap<char, usize>) -> (r: Option<usize>)
        requires
            forall|c: char| variables@.dom().contains(c) ==> #[trigger] variables@[c] <= i64::MAX,
            !(walk64(self@, Seq::<int>::empty(), env_view(variables@)) is Stuck),
            walk64(self@, Seq::<int>::empty(), env_view(variables@)) matches RunOut::Going(st)
                ==> (st.len() > 0 ==> 0 <= st.last() <= usize::MAX),
        ensures
            match walk64(self@, Seq::<int>::empty(), env_view(variables@)) {
                RunOut::Going(st) => r == if st.len() > 0 {
                    Some(st.last() as usize)
                } else {
                    None::<usize>
                },
                _ => r is None,
            },
    {
        let mut stack: Vec<i64> = Vec::new();
        proof {
            assert(int_stack(stack@) =~= Seq::<int>::empty());
        }
        self.exec_stack(variables, &mut stack)
    }

    /// Evaluate with no variables bound: yields the value only for a
    /// variable-free expression.
    pub fn to_usize(&self) -> (r: Option<usize>)
        requires
            !(walk64(self@, Seq::<int>::empty(), Map::<char, int>::empty()) is Stuck),
            walk64(self@, Seq::<int>::empty(), Map::<char, int>::empty()) matches RunOut::Going(st)
                ==> (st.len() > 0 ==> 0 <= st.last() <= usize::MAX),
        ensures
            match walk64(self@, Seq::<int>::empty(), Map::<char, int>::empty()) {
                RunOut::Going(st) => r == if st.len() > 0 {
                    Some(st.last() as usize)
                } else {
                    None::<usize>
                },
                _ => r is None,
            },
    {
        let empty: HashMap<char, usize> = HashMap::new();
        proof {
            assert(env_view(empty@) =~= Map::<char, int>::empty());
        }
        self.exec(&empty)
    }

    /// Evaluate with one value standing for every variable, using the
    /// given scratch stack.
    pub fn exec_single_var_stack(&self, value: usize, stack: &mut Vec<i64>) -> (r: usize)
        requires
            value <= i64::MAX,
            walk64(self@, int_stack(old(stack)@), const_env(value as int)) matches RunOut::Going(st)
                && st.len() > 0 && 0 <= st.last() <= usize::MAX,
        ensures
            r == walk64(
                self@,
                int_stack(old(stack)@),
                const_env(value as int),
            )->Going_0.last() as usize,
    {
        let ghost s = self@;
        let ghost env = const_env(value as int);
        let ghost st0 = int_stack(old(stack)@);
        let n = self.len();
        let mut i: usize = 0;
        proof {
            assert(s.skip(0) =~= s);
        }
        while i < n
            invariant
                n == s.len(),
                i <= n,
                value <= i64::MAX,
                env == const_env(value as int),
                s == self@,
                st0 == int_stack(old(stack)@),
                walk64(s, st0, env) == walk64(s.skip(i as int), int_stack(stack@), env),
                walk64(s, st0, env) is Going,
            decreases n - i,
        {
            let ghost tail = s.skip(i as int);
            let ghost cur = int_stack(stack@);
            proof {
                assert(tail[0] == s[i as int]);
                assert(tail.drop_first() =~= s.skip(i as int + 1));
            }
            let t = self.terms.read(i);
            match t {
                Term::Num(v) => {
                    stack.push(v as i64);
                    proof {
                        assert(int_stack(stack@) =~= cur.push((v as i64) as int));
                    }
                },
                Term::Var(_) => {
                    stack.push(value as i64);
                    proof {
                        assert(int_stack(stack@) =~= cur.push(value as int));
                    }
                },
                _ => {
                    proof {
                        if cur.len() < 2 {
                            assert(walk64(tail, cur, env) is Stuck);
                        }
                    }
                    let a = stack.pop().unwrap();
                    let b = stack.pop().unwrap();
                    proof {
                        assert(a as int == cur[cur.len() - 1]);
                        assert(b as int == cur[cur.len() - 2]);
                        assert(int_stack(stack@) =~= cur.take(cur.len() - 2));
                        if !crate::term::op_ok64(t, a as int, b as int) {
                            assert(walk64(tail, cur, env) is Stuck);
                        }
                    }
                    let c = t.as_op(a, b).unwrap();
                    stack.push(c);
                    proof {
                        assert(int_stack(stack@) =~= cur.take(cur.len() - 2).push(c as int));
                    }
                },
            }
            i = i + 1;
        }
        proof {
            assert(s.skip(n as int) =~= Seq::<Term>::empty());
        }
        let out = stack.pop().unwrap();
        out as usize
    }

    /// Evaluate with one value standing for every variable.
    pub fn exec_single_var(&self, value: usize) -> (r: usize)
        requires
            value <= i64::MAX,
            walk64(self@, Seq::<int>::empty(), const_env(value as int)) matches RunOut::Going(st)
                && st.len() > 0 && 0 <= st.last() <= usize::MAX,
        ensures
            r == walk64(
                self@,
                Seq::<int>::empty(),
                const_env(value as int),
            )->Going_0.last() as usize,
    {
        let mut stack: Vec<i64> = Vec::new();
        proof {
            assert(int_stack(stack@) =~= Seq::<int>::empty());
        }
        self.exec_single_var_stack(value, &mut stack)
    }
}

/// The variable characters of a term sequence, in stream order, duplicates
/// kept.
pub open spec fn symbols_of(s: Seq<Term>) -> Seq<char>
    decreases s.len(),
{
    if s.len() == 0 {
        Seq::<char>::empty()
    } else {
        (match s[0] {
            Term::Var(c) => seq![c],
            _ => Seq::<char>::empty(),
        }) + symbols_of(s.drop_first())
    }
}

impl<S: ExpressionStorage> GenericExpression<S> {
    /// All variable characters in the expression, in order of appearance,
    /// duplicates kept.
    pub fn to_symbols(&self) -> (r: Vec<char>)
        ensures
            r@ == symbols_of(self@),
    {
        let ghost s = self@;
        let n = self.len();
        let mut out: Vec<char> = Vec::new();
        let mut i: usize = 0;
        proof {
            assert(s.skip(0) =~= s);
            assert(Seq::<char>::empty() + symbols_of(s) =~= symbols_of(s));
        }
        while i < n
            invariant
                n == s.len(),
                i <= n,
                s == self@,
                symbols_of(s) == out@ + symbols_of(s.skip(i as int)),
            decreases n - i,
        {
            let ghost tail = s.skip(i as int);
            proof {
                assert(tail[0] == s[i as int]);
                assert(tail.drop_first() =~= s.skip(i as int + 1));
            }
            let t = self.terms.read(i);
            match t {
                Term::Var(c) => {
                    out.push(c);
                    proof {
                        assert(out@ + symbols_of(s.skip(i as int + 1)) =~= out@.drop_last() + (
                        seq![c] + symbols_of(s.skip(i as int + 1))));
                    }
                },
                _ => {
                    proof {
                        assert(symbols_of(tail) =~= Seq::<char>::empty() + symbols_of(
                            s.skip(i as int + 1),
                        ));
                    }
                },
            }
            i = i + 1;
        }
        proof {
            assert(s.skip(n as int) =~= Seq::<Term>::empty());
            assert(symbols_of(s) =~= out@ + Seq::<char>::empty());
            assert(out@ + Seq::<char>::empty() =~= out@);
        }
        out
    }

    /// Whether the reserved unknown variable `'-'` appears anywhere.
    pub fn is_unknown(&self) -> (r: bool)
        ensures
            r == exists|k: int| 0 <= k < self@.len() && self@[k] == Term::Var('-'),
    {
        let ghost s = self@;
        let n = self.len();
        let mut i: usize = 0;
        while i < n
            invariant
                n == s.len(),
                i <= n,
                s == self@,
                forall|k: int| 0 <= k < i ==> s[k] != Term::Var('-'),
            decreases n - i,
        {
            let t = self.terms.read(i);
            if t == Term::Var('-') {
                return true;
            }
            i = i + 1;
        }
        false
    }
}

} // verus!
