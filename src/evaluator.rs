//! The evaluator: runs the top-level forms of a program in order against one
//! flat, mutable environment.
use vstd::prelude::*;
use crate::ast::{exprs_view, lemma_list_view, CompilerError, ErrorV, SExpression, Sx};

verus! {

/// The environment's model: each bound name with its value.
pub type Bindings = Map<Seq<char>, Sx>;

/// The model of an evaluation result.
pub open spec fn result_view(r: Result<SExpression, CompilerError>) -> Result<Sx, ErrorV> {
    match r {
        Ok(v) => Ok(v@),
        Err(e) => Err(e@),
    }
}

/// Whether two values are equal, when they are of the same comparable kind.
pub open spec fn same_value(a: Sx, b: Sx) -> Option<bool> {
    match (a, b) {
        (Sx::Number(x), Sx::Number(y)) => Some(x == y),
        (Sx::Boolean(x), Sx::Boolean(y)) => Some(x == y),
        (Sx::Str(x), Sx::Str(y)) => Some(x == y),
        _ => None,
    }
}

/// The value of an expression and the environment after it: atoms evaluate
/// to themselves, identifiers to their binding, the empty list to `Void`, and
/// a non-empty list according to its head.
pub open spec fn eval_sx(env: Bindings, e: Sx) -> (Bindings, Result<Sx, ErrorV>)
    decreases e, 2nat,
{
    match e {
        Sx::Identifier(n) => if env.contains_key(n) {
            (env, Ok(env[n]))
        } else {
            (env, Err(ErrorV::UnknownSymbol(n)))
        },
        Sx::List(items) => if items.len() == 0 {
            (env, Ok(Sx::Void))
        } else {
            match items[0] {
                Sx::List(_) => eval_sx(env, items[0]),
                Sx::Identifier(n) => if n == seq!['+'] {
                    sum_from(env, items, 1, 0)
                } else if n == seq!['='] {
                    eval_equal(env, e)
                } else if n == seq!['!', '='] {
                    eval_not_equal(env, e)
                } else if n == seq!['i', 'f'] {
                    eval_if(env, e)
                } else if n == seq!['d', 'e', 'f', 'i', 'n', 'e'] {
                    eval_define(env, e)
                } else {
                    (env, Err(ErrorV::UnknownSymbol(n)))
                },
                _ => (env, Err(ErrorV::InvalidList(e))),
            }
        },
        _ => (env, Ok(e)),
    }
}

/// `acc` plus the values of the list's elements from `i` on, in 32-bit
/// wrapping arithmetic; an element whose value is not a number is an error.
pub open spec fn sum_from(env: Bindings, items: Seq<Sx>, i: int, acc: i32) -> (
    Bindings,
    Result<Sx, ErrorV>,
)
    decreases items, items.len() - i,
{
    if i < 0 || i >= items.len() {
        (env, Ok(Sx::Number(acc)))
    } else {
        let (env1, r) = eval_sx(env, items[i]);
        match r {
            Ok(Sx::Number(n)) => sum_from(
                env1,
                items,
                i + 1,
                vstd::wrapping::i32_specs::wrapping_add(acc, n),
            ),
            Ok(v) => (env1, Err(ErrorV::InvalidList(v))),
            Err(x) => (env1, Err(x)),
        }
    }
}

/// `(= a b)`: both operands are evaluated, left first; values of the same
/// kind among numbers, booleans and strings compare by content.
pub open spec fn eval_equal(env: Bindings, e: Sx) -> (Bindings, Result<Sx, ErrorV>)
    decreases e, 0nat,
{
    match e {
        Sx::List(items) => if items.len() != 3 {
            (env, Err(ErrorV::InvalidList(e)))
        } else {
            let (env1, r1) = eval_sx(env, items[1]);
            match r1 {
                Err(x) => (env1, Err(x)),
                Ok(a) => {
                    let (env2, r2) = eval_sx(env1, items[2]);
                    match r2 {
                        Err(x) => (env2, Err(x)),
                        Ok(b) => match same_value(a, b) {
                            Some(t) => (env2, Ok(Sx::Boolean(t))),
                            None => (env2, Err(ErrorV::InvalidList(e))),
                        },
                    }
                },
            }
        },
        _ => (env, Err(ErrorV::InvalidList(e))),
    }
}

/// `(!= a b)`: the negation of `(= a b)`, with its errors.
pub open spec fn eval_not_equal(env: Bindings, e: Sx) -> (Bindings, Result<Sx, ErrorV>)
    decreases e, 1nat,
{
    let (env1, r) = eval_equal(env, e);
    match r {
        Ok(Sx::Boolean(t)) => (env1, Ok(Sx::Boolean(!t))),
        Ok(_) => (env1, Err(ErrorV::InvalidList(e))),
        Err(x) => (env1, Err(x)),
    }
}

/// `(if c t f)`: the condition must evaluate to a boolean; then only the
/// branch it selects is evaluated.
pub open spec fn eval_if(env: Bindings, e: Sx) -> (Bindings, Result<Sx, ErrorV>)
    decreases e, 0nat,
{
    match e {
        Sx::List(items) => if items.len() != 4 {
            (env, Err(ErrorV::InvalidList(e)))
        } else {
            let (env1, r) = eval_sx(env, items[1]);
            match r {
                Ok(Sx::Boolean(b)) => if b {
                    eval_sx(env1, items[2])
                } else {
                    eval_sx(env1, items[3])
                },
                Ok(v) => (env1, Err(ErrorV::InvalidList(v))),
                Err(x) => (env1, Err(x)),
            }
        },
        _ => (env, Err(ErrorV::InvalidList(e))),
    }
}

/// `(define name expr)`: binds `name` to the value of `expr`, replacing any
/// earlier binding, and yields `Void`.
pub open spec fn eval_define(env: Bindings, e: Sx) -> (Bindings, Result<Sx, ErrorV>)
    decreases e, 0nat,
{
    match e {
        Sx::List(items) => if items.len() != 3 {
            (env, Err(ErrorV::InvalidList(e)))
        } else {
            match items[1] {
                Sx::Identifier(name) => {
                    let (env1, r) = eval_sx(env, items[2]);
                    match r {
                        Ok(v) => (env1.insert(name, v), Ok(Sx::Void)),
                        Err(x) => (env1, Err(x)),
                    }
                },
                _ => (env, Err(ErrorV::InvalidList(e))),
            }
        },
        _ => (env, Err(ErrorV::InvalidList(e))),
    }
}

/// The value of an expression as a number.
pub open spec fn eval_number(env: Bindings, e: Sx) -> (Bindings, Result<i32, ErrorV>) {
    let (env1, r) = eval_sx(env, e);
    (env1, match r {
        Ok(Sx::Number(n)) => Ok(n),
        Ok(v) => Err(ErrorV::InvalidList(v)),
        Err(x) => Err(x),
    })
}

/// The value of an expression as a boolean.
pub open spec fn eval_bool(env: Bindings, e: Sx) -> (Bindings, Result<bool, ErrorV>) {
    let (env1, r) = eval_sx(env, e);
    (env1, match r {
        Ok(Sx::Boolean(b)) => Ok(b),
        Ok(v) => Err(ErrorV::InvalidList(v)),
        Err(x) => Err(x),
    })
}

/// The values of the forms from `i` on, after those in `acc`, or the first
/// error; with the environment after the last form evaluated.
pub open spec fn run_from(env: Bindings, forms: Seq<Sx>, i: int, acc: Seq<Sx>) -> (
    Bindings,
    Result<Seq<Sx>, ErrorV>,
)
    decreases forms.len() - i,
{
    if i < 0 || i >= forms.len() {
        (env, Ok(acc))
    } else {
        let (env1, r) = eval_sx(env, forms[i]);
        match r {
            Ok(v) => run_from(env1, forms, i + 1, acc.push(v)),
            Err(x) => (env1, Err(x)),
        }
    }
}

/// The values of a program's forms, evaluated in order from an empty
/// environment, or the first error.
pub open spec fn eval_program(forms: Seq<Sx>) -> Result<Seq<Sx>, ErrorV> {
    run_from(Map::empty(), forms, 0, seq![]).1
}

/// The model of a run's result.
pub open spec fn program_view(r: Result<Vec<SExpression>, CompilerError>) -> Result<Seq<Sx>, ErrorV> {
    match r {
        Ok(v) => Ok(exprs_view(v@)),
        Err(e) => Err(e@),
    }
}

/// The form `(if c t f)`.
pub open spec fn if_form(c: Sx, t: Sx, f: Sx) -> Sx {
    Sx::List(seq![Sx::Identifier(seq!['i', 'f']), c, t, f])
}

/// The form `(define name x)`.
pub open spec fn define_form(name: Seq<char>, x: Sx) -> Sx {
    Sx::List(seq![Sx::Identifier(seq!['d', 'e', 'f', 'i', 'n', 'e']), Sx::Identifier(name), x])
}

/// Branches are lazy: `(if c t f)` evaluates the condition first. When it
/// yields a boolean, the value of the form and the environment after it are
/// those of the selected branch alone, evaluated in the environment the
/// condition left; the other branch is never evaluated, so its errors and its
/// definitions have no effect. When the condition fails, the form fails with
/// the same error and no branch runs; when it yields another value, the form
/// fails with `InvalidList` of that value.
pub proof fn lemma_if_evaluates_only_selected_branch(env: Bindings, c: Sx, t: Sx, f: Sx)
    ensures
        eval_sx(env, if_form(c, t, f)) == match eval_sx(env, c) {
            (env1, Ok(Sx::Boolean(b))) => eval_sx(env1, if b { t } else { f }),
            (env1, Ok(v)) => (env1, Err(ErrorV::InvalidList(v))),
            (env1, Err(x)) => (env1, Err(x)),
        },
{
    let e = if_form(c, t, f);
    let items = e->List_0;
    assert(items[0] == Sx::Identifier(seq!['i', 'f']));
    assert(seq!['i', 'f'] != seq!['+']) by {
        assert(seq!['i', 'f'].len() != seq!['+'].len());
    }
    assert(seq!['i', 'f'] != seq!['=']) by {
        assert(seq!['i', 'f'][0] != seq!['='][0]);
    }
    assert(seq!['i', 'f'] != seq!['!', '=']) by {
        assert(seq!['i', 'f'][0] != seq!['!', '='][0]);
    }
    assert(items[1] == c && items[2] == t && items[3] == f && items.len() == 4);
    assert(eval_sx(env, e) == eval_if(env, e));
}

/// A definition replaces any earlier binding of its name: `(define name x)`
/// evaluates `x`; with its value `v` the form yields `Void` and leaves the
/// environment `x` left with `name` bound to `v` (the value, not the
/// expression) and every other binding unchanged, so `name` then evaluates to
/// `v` whatever it was bound to before. When `x` fails, the form fails with
/// the same error and binds nothing.
pub proof fn lemma_define_rebinds(env: Bindings, name: Seq<char>, x: Sx)
    ensures
        eval_sx(env, define_form(name, x)) == match eval_sx(env, x) {
            (env1, Ok(v)) => (env1.insert(name, v), Ok::<Sx, ErrorV>(Sx::Void)),
            (env1, Err(e)) => (env1, Err(e)),
        },
        eval_sx(env, x).1 is Ok ==> eval_sx(
            eval_sx(env, define_form(name, x)).0,
            Sx::Identifier(name),
        ).1 == Ok::<Sx, ErrorV>(eval_sx(env, x).1->Ok_0),
{
    let e = define_form(name, x);
    let items = e->List_0;
    let d = seq!['d', 'e', 'f', 'i', 'n', 'e'];
    assert(items[0] == Sx::Identifier(d));
    assert(d != seq!['+']) by {
        assert(d.len() != seq!['+'].len());
    }
    assert(d != seq!['=']) by {
        assert(d.len() != seq!['='].len());
    }
    assert(d != seq!['!', '=']) by {
        assert(d.len() != seq!['!', '='].len());
    }
    assert(d != seq!['i', 'f']) by {
        assert(d.len() != seq!['i', 'f'].len());
    }
    assert(items[1] == Sx::Identifier(name) && items[2] == x && items.len() == 3);
    assert(eval_sx(env, e) == eval_define(env, e));
}

/// Whether the text of `s` is exactly `w`.
fn is_symbol(s: &String, w: &str) -> (r: bool)
    ensures
        r == (s@ == w@),
{
    let t = w.to_owned();
    s.eq(&t)
}

/// The bindings of one run: parallel vectors of names and values, each name
/// once.
struct Env {
    names: Vec<String>,
    values: Vec<SExpression>,
    bound: Ghost<Bindings>,
}

impl Env {
    spec fn inv(&self) -> bool {
        &&& self.names.len() == self.values.len()
        &&& forall|i: int, j: int|
            0 <= i < j < self.names.len() ==> self.names[i]@ != self.names[j]@
        &&& forall|i: int|
            0 <= i < self.names.len() ==> #[trigger] self.bound@.contains_key(self.names[i]@)
                && self.bound@[self.names[i]@] == self.values[i]@
        &&& forall|k: Seq<char>|
            #[trigger] self.bound@.contains_key(k) ==> exists|i: int|
                0 <= i < self.names.len() && self.names[i]@ == k
    }

    spec fn view(&self) -> Bindings {
        self.bound@
    }

    fn std_env() -> (r: Env)
        ensures
            r.inv(),
            r.view() == Map::<Seq<char>, Sx>::empty(),
    {
        Env { names: Vec::new(), values: Vec::new(), bound: Ghost(Map::empty()) }
    }

    /// The position of `name`, if it is bound.
    fn find(&self, name: &String) -> (r: Option<usize>)
        requires
            self.inv(),
        ensures
            match r {
                Some(i) => i < self.names.len() && self.names[i as int]@ == name@,
                None => !self.view().contains_key(name@),
            },
    {
        let mut i: usize = 0;
        while i < self.names.len()
            invariant
                self.inv(),
                i <= self.names.len(),
                forall|j: int| 0 <= j < i ==> self.names[j]@ != name@,
            decreases self.names.len() - i,
        {
            if self.names[i].eq(name) {
                return Some(i);
            }
            i += 1;
        }
        None
    }

    /// A copy of the value bound to `name`.
    fn get(&self, name: &String) -> (r: Option<SExpression>)
        requires
            self.inv(),
        ensures
            match r {
                Some(v) => self.view().contains_key(name@) && v@ == self.view()[name@],
                None => !self.view().contains_key(name@),
            },
    {
        match self.find(name) {
            Some(i) => {
                assert(self.view().contains_key(self.names[i as int]@));
                Some(self.values[i].deep_copy())
            },
            None => None,
        }
    }

    /// Binds `name` to `value`, replacing an earlier binding.
    fn insert(&mut self, name: String, value: SExpression)
        requires
            old(self).inv(),
        ensures
            final(self).inv(),
            final(self).view() == old(self).view().insert(name@, value@),
    {
        let ghost key = name@;
        let ghost v = value@;
        match self.find(&name) {
            Some(i) => {
                self.values.set(i, value);
                self.bound = Ghost(self.bound@.insert(key, v));
                assert forall|j: int| 0 <= j < self.names.len() implies #[trigger] self.bound@.contains_key(
                    self.names[j]@,
                ) && self.bound@[self.names[j]@] == self.values[j]@ by {
                    if j != i {
                        assert(old(self).bound@.contains_key(old(self).names[j]@));
                    }
                }
                assert forall|k: Seq<char>| #[trigger] self.bound@.contains_key(k) implies exists|j: int|
                    0 <= j < self.names.len() && self.names[j]@ == k by {
                    if k == key {
                        assert(self.names[i as int]@ == k);
                    } else {
                        assert(old(self).bound@.contains_key(k));
                    }
                }
            },
            None => {
                assert forall|j: int| 0 <= j < old(self).names.len() implies old(self).names[j]@ != key by {
                    assert(old(self).bound@.contains_key(old(self).names[j]@));
                }
                self.names.push(name);
                self.values.push(value);
                self.bound = Ghost(self.bound@.insert(key, v));
                assert forall|j: int| 0 <= j < self.names.len() implies #[trigger] self.bound@.contains_key(
                    self.names[j]@,
                ) && self.bound@[self.names[j]@] == self.values[j]@ by {
                    if j < old(self).names.len() {
                        assert(old(self).bound@.contains_key(old(self).names[j]@));
                    }
                }
                assert forall|k: Seq<char>| #[trigger] self.bound@.contains_key(k) implies exists|j: int|
                    0 <= j < self.names.len() && self.names[j]@ == k by {
                    if k == key {
                        assert(self.names[self.names.len() - 1]@ == k);
                    } else {
                        assert(old(self).bound@.contains_key(k));
                        let j = choose|j: int| 0 <= j < old(self).names.len() && old(self).names[j]@ == k;
                        assert(self.names[j]@ == k);
                    }
                }
            },
        }
    }
}

/// Evaluates the forms of one run against one environment.
struct Evaluator {
    env: Env,
}

/// The model of a result that is a number.
pub open spec fn number_view(r: Result<i32, CompilerError>) -> Result<i32, ErrorV> {
    match r {
        Ok(n) => Ok(n),
        Err(e) => Err(e@),
    }
}

/// The model of a result that is a boolean.
pub open spec fn bool_view(r: Result<bool, CompilerError>) -> Result<bool, ErrorV> {
    match r {
        Ok(b) => Ok(b),
        Err(e) => Err(e@),
    }
}

impl Evaluator {
    fn new() -> (r: Evaluator)
        ensures
            r.env.inv(),
            r.env.view() == Map::<Seq<char>, Sx>::empty(),
    {
        Evaluator { env: Env::std_env() }
    }

    fn eval_expr(&mut self, e: &SExpression) -> (r: Result<SExpression, CompilerError>)
        requires
            old(self).env.inv(),
        ensures
            final(self).env.inv(),
            (final(self).env.view(), result_view(r)) == eval_sx(old(self).env.view(), e@),
        decreases e, 2nat,
    {
        match e {
            SExpression::Identifier(id) => match self.env.get(id) {
                Some(v) => Ok(v),
                None => Err(CompilerError::UnknownSymbol(id.clone())),
            },
            SExpression::List(v) => {
                proof {
                    lemma_list_view(*v);
                }
                if v.len() == 0 {
                    return Ok(SExpression::Void);
                }
                assert(e@->List_0[0] == v[0]@);
                match &v[0] {
                    SExpression::List(_) => {
                        proof {
                            assert(decreases_to!(*v => v[0]));
                            assert(decreases_to!(*e => (*e)->List_0));
                        }
                        self.eval_expr(&v[0])
                    },
                    SExpression::Identifier(id) => {
                        proof {
                            reveal_strlit("+");
                            reveal_strlit("=");
                            reveal_strlit("!=");
                            reveal_strlit("if");
                            reveal_strlit("define");
                            assert("+"@ =~= seq!['+']);
                            assert("="@ =~= seq!['=']);
                            assert("!="@ =~= seq!['!', '=']);
                            assert("if"@ =~= seq!['i', 'f']);
                            assert("define"@ =~= seq!['d', 'e', 'f', 'i', 'n', 'e']);
                        }
                        if is_symbol(id, "+") {
                            self.plus(e)
                        } else if is_symbol(id, "=") {
                            self.equal(e)
                        } else if is_symbol(id, "!=") {
                            self.not_equal(e)
                        } else if is_symbol(id, "if") {
                            self.if_expression(e)
                        } else if is_symbol(id, "define") {
                            self.store_expression(e)
                        } else {
                            Err(CompilerError::UnknownSymbol(id.clone()))
                        }
                    },
                    _ => Err(CompilerError::InvalidList(e.deep_copy())),
                }
            },
            _ => Ok(e.deep_copy()),
        }
    }

    fn eval_to_number(&mut self, e: &SExpression) -> (r: Result<i32, CompilerError>)
        requires
            old(self).env.inv(),
        ensures
            final(self).env.inv(),
            (final(self).env.view(), number_view(r)) == eval_number(old(self).env.view(), e@),
        decreases e, 3nat,
    {
        match self.eval_expr(e) {
            Ok(SExpression::Number(n)) => Ok(n),
            Ok(other) => Err(CompilerError::InvalidList(other)),
            Err(x) => Err(x),
        }
    }

    fn eval_to_bool(&mut self, e: &SExpression) -> (r: Result<bool, CompilerError>)
        requires
            old(self).env.inv(),
        ensures
            final(self).env.inv(),
            (final(self).env.view(), bool_view(r)) == eval_bool(old(self).env.view(), e@),
        decreases e, 3nat,
    {
        match self.eval_expr(e) {
            Ok(SExpression::Boolean(b)) => Ok(b),
            Ok(other) => Err(CompilerError::InvalidList(other)),
            Err(x) => Err(x),
        }
    }

    fn plus(&mut self, e: &SExpression) -> (r: Result<SExpression, CompilerError>)
        requires
            old(self).env.inv(),
            e is List,
        ensures
            final(self).env.inv(),
            (final(self).env.view(), result_view(r)) == sum_from(
                old(self).env.view(),
                e@->List_0,
                1,
                0,
            ),
        decreases e, 0nat,
    {
        match e {
            SExpression::List(v) => {
                proof {
                    lemma_list_view(*v);
                }
                let ghost items = e@->List_0;
                let mut out: i32 = 0;
                let mut i: usize = 1;
                while i < v.len()
                    invariant
                        self.env.inv(),
                        1 <= i,
                        *e == SExpression::List(*v),
                        items == exprs_view(v@),
                        items == e@->List_0,
                        sum_from(old(self).env.view(), items, 1, 0) == sum_from(
                            self.env.view(),
                            items,
                            i as int,
                            out,
                        ),
                    decreases v.len() - i,
                {
                    proof {
                        assert(decreases_to!(*v => v[i as int]));
                        assert(decreases_to!(*e => (*e)->List_0));
                    }
                    assert(items[i as int] == v[i as int]@);
                    let ghost before = self.env.view();
                    match self.eval_to_number(&v[i]) {
                        Ok(n) => {
                            out = out.wrapping_add(n);
                        },
                        Err(x) => {
                            assert(sum_from(before, items, i as int, out) == (self.env.view(), Err::<Sx, ErrorV>(x@)));
                            return Err(x);
                        },
                    }
                    i += 1;
                }
                Ok(SExpression::Number(out))
            },
            _ => Err(CompilerError::InvalidList(e.deep_copy())),
        }
    }

    fn if_expression(&mut self, e: &SExpression) -> (r: Result<SExpression, CompilerError>)
        requires
            old(self).env.inv(),
        ensures
            final(self).env.inv(),
            (final(self).env.view(), result_view(r)) == eval_if(old(self).env.view(), e@),
        decreases e, 0nat,
    {
        match e {
            SExpression::List(v) => {
                if v.len() != 4 {
                    proof {
                        lemma_list_view(*v);
                    }
                    return Err(CompilerError::InvalidList(e.deep_copy()));
                }
                proof {
                    lemma_list_view(*v);
                    assert(decreases_to!(*v => v[1]));
                    assert(decreases_to!(*v => v[2]));
                    assert(decreases_to!(*v => v[3]));
                    assert(decreases_to!(*e => (*e)->List_0));
                }
                let condition = self.eval_to_bool(&v[1]);
                match condition {
                    Ok(true) => self.eval_expr(&v[2]),
                    Ok(false) => self.eval_expr(&v[3]),
                    Err(x) => Err(x),
                }
            },
            _ => Err(CompilerError::InvalidList(e.deep_copy())),
        }
    }

    fn equal(&mut self, e: &SExpression) -> (r: Result<SExpression, CompilerError>)
        requires
            old(self).env.inv(),
        ensures
            final(self).env.inv(),
            (final(self).env.view(), result_view(r)) == eval_equal(old(self).env.view(), e@),
        decreases e, 0nat,
    {
        match e {
            SExpression::List(v) => {
                if v.len() != 3 {
                    proof {
                        lemma_list_view(*v);
                    }
                    return Err(CompilerError::InvalidList(e.deep_copy()));
                }
                proof {
                    lemma_list_view(*v);
                    assert(decreases_to!(*v => v[1]));
                    assert(decreases_to!(*v => v[2]));
                    assert(decreases_to!(*e => (*e)->List_0));
                }
                let a = match self.eval_expr(&v[1]) {
                    Ok(a) => a,
                    Err(x) => {
                        return Err(x);
                    },
                };
                let b = match self.eval_expr(&v[2]) {
                    Ok(b) => b,
                    Err(x) => {
                        return Err(x);
                    },
                };
                match (a, b) {
                    (SExpression::Number(x), SExpression::Number(y)) => Ok(SExpression::Boolean(x == y)),
                    (SExpression::Boolean(x), SExpression::Boolean(y)) => Ok(SExpression::Boolean(x == y)),
                    (SExpression::String(x), SExpression::String(y)) => Ok(SExpression::Boolean(x.eq(&y))),
                    _ => Err(CompilerError::InvalidList(e.deep_copy())),
                }
            },
            _ => Err(CompilerError::InvalidList(e.deep_copy())),
        }
    }

    fn not_equal(&mut self, e: &SExpression) -> (r: Result<SExpression, CompilerError>)
        requires
            old(self).env.inv(),
        ensures
            final(self).env.inv(),
            (final(self).env.view(), result_view(r)) == eval_not_equal(old(self).env.view(), e@),
        decreases e, 1nat,
    {
        match self.equal(e) {
            Ok(SExpression::Boolean(a)) => Ok(SExpression::Boolean(!a)),
            Ok(_) => Err(CompilerError::InvalidList(e.deep_copy())),
            Err(x) => Err(x),
        }
    }

    fn store_expression(&mut self, e: &SExpression) -> (r: Result<SExpression, CompilerError>)
        requires
            old(self).env.inv(),
        ensures
            final(self).env.inv(),
            (final(self).env.view(), result_view(r)) == eval_define(old(self).env.view(), e@),
        decreases e, 0nat,
    {
        match e {
            SExpression::List(v) => {
                if v.len() != 3 {
                    proof {
                        lemma_list_view(*v);
                    }
                    return Err(CompilerError::InvalidList(e.deep_copy()));
                }
                proof {
                    lemma_list_view(*v);
                    assert(decreases_to!(*v => v[2]));
                    assert(decreases_to!(*e => (*e)->List_0));
                }
                match &v[1] {
                    SExpression::Identifier(symbol) => {
                        match self.eval_expr(&v[2]) {
                            Ok(result) => {
                                self.env.insert(symbol.clone(), result);
                                Ok(SExpression::Void)
                            },
                            Err(x) => Err(x),
                        }
                    },
                    _ => Err(CompilerError::InvalidList(e.deep_copy())),
                }
            },
            _ => Err(CompilerError::InvalidList(e.deep_copy())),
        }
    }
}

/// One environment that lasts across runs, as an interactive loop needs:
/// each run sees the definitions of the runs before it.
pub struct Session {
    evaluator: Evaluator,
}

impl Session {
    /// What the environment binds.
    pub closed spec fn bindings(&self) -> Bindings {
        self.evaluator.env.view()
    }

    pub closed spec fn wf(&self) -> bool {
        self.evaluator.env.inv()
    }

    /// A session whose environment is empty.
    pub fn new() -> (r: Session)
        ensures
            r.wf(),
            r.bindings() == Map::<Seq<char>, Sx>::empty(),
    {
        Session { evaluator: Evaluator::new() }
    }

    /// Evaluates the forms in order against the session's environment. On
    /// success there is one value per form; the first error ends the run and
    /// is the only thing reported, and the definitions made before it stay.
    pub fn run(&mut self, forms: Vec<SExpression>) -> (r: Result<Vec<SExpression>, CompilerError>)
        requires
            old(self).wf(),
        ensures
            final(self).wf(),
            (final(self).bindings(), program_view(r)) == run_from(
                old(self).bindings(),
                exprs_view(forms@),
                0,
                seq![],
            ),
    {
        let ghost all = exprs_view(forms@);
        let ghost start = self.bindings();
        let mut out: Vec<SExpression> = Vec::new();
        let mut i: usize = 0;
        assert(exprs_view(out@) =~= seq![]);
        while i < forms.len()
            invariant
                self.wf(),
                i <= forms.len(),
                out.len() == i,
                all == exprs_view(forms@),
                start == old(self).bindings(),
                run_from(start, all, 0, seq![]) == run_from(
                    self.bindings(),
                    all,
                    i as int,
                    exprs_view(out@),
                ),
            decreases forms.len() - i,
        {
            let ghost acc = exprs_view(out@);
            let ghost before = self.bindings();
            assert(all[i as int] == forms[i as int]@);
            match self.evaluator.eval_expr(&forms[i]) {
                Ok(v) => {
                    let ghost value = v@;
                    out.push(v);
                    assert(exprs_view(out@) =~= acc.push(value));
                },
                Err(x) => {
                    assert(run_from(before, all, i as int, acc) == (self.bindings(), Err::<Seq<Sx>, ErrorV>(x@)));
                    return Err(x);
                },
            }
            i += 1;
        }
        Ok(out)
    }
}

/// Evaluates a program's top-level forms in order against one fresh
/// environment. On success there is one value per form; the first error ends
/// the run and is the only thing reported.
pub fn eval(ast: Vec<SExpression>) -> (r: Result<Vec<SExpression>, CompilerError>)
    ensures
        program_view(r) == eval_program(exprs_view(ast@)),
{
    let mut session = Session::new();
    session.run(ast)
}

} // verus!
