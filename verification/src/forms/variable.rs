//! Symbolic variables: a name character and an optional integer subscript.

use vstd::prelude::*;
use crate::text::{decimal, subscript, push_char, push_str, i64_decimal, i64_subscript};

verus! {

/// A symbolic variable identified by a name and optional subscript.
#[derive(Clone, Copy, Debug, PartialEq, Eq, Structural, Hash, PartialOrd, Ord)]
pub struct Variable {
    name: char,
    subscript: Option<i64>,
}

/// What `Variable::named` holds.
pub proof fn lemma_named(name: char, subscript: Option<i64>)
    ensures
        Variable::named(name, subscript).name_of() == name,
        Variable::named(name, subscript).subscript_of() == subscript,
{
}

/// The order of subscripts: no subscript first, then by value.
pub open spec fn subscript_lt(a: Option<i64>, b: Option<i64>) -> bool {
    match (a, b) {
        (None, Some(_)) => true,
        (Some(x), Some(y)) => x < y,
        _ => false,
    }
}

/// The order of variables (the one their derived `Ord` gives): by name, then by subscript.
pub open spec fn var_lt(a: Variable, b: Variable) -> bool {
    (a.name_of() as int) < (b.name_of() as int) || (a.name_of() == b.name_of()
        && subscript_lt(a.subscript_of(), b.subscript_of()))
}

/// The text a variable displays: its name, then its subscript in unicode subscript digits.
pub open spec fn var_text(v: Variable) -> Seq<char> {
    match v.subscript_of() {
        Some(s) => seq![v.name_of()] + subscript(s as int),
        None => seq![v.name_of()],
    }
}

/// A variable that can be displayed: its subscript, if any, is not `i64::MIN`
/// (whose unicode rendering overflows).
pub open spec fn displayable(v: Variable) -> bool {
    match v.subscript_of() {
        Some(s) => s != i64::MIN,
        None => true,
    }
}

/// The SymPy text of a variable: its name, then `_` and the subscript in decimal.
pub open spec fn var_sympy_text(v: Variable) -> Seq<char> {
    match v.subscript_of() {
        Some(s) => seq![v.name_of(), '_'] + decimal(s as int),
        None => seq![v.name_of()],
    }
}

impl Variable {
    pub closed spec fn name_of(self) -> char {
        self.name
    }

    pub closed spec fn subscript_of(self) -> Option<i64> {
        self.subscript
    }

    /// The variable with this name and subscript.
    pub closed spec fn named(name: char, subscript: Option<i64>) -> Variable {
        Variable { name, subscript }
    }

    /// Creates a new symbolic variable.
    pub fn new(name: char, subscript: Option<i64>) -> (v: Variable)
        ensures
            v.name_of() == name,
            v.subscript_of() == subscript,
            v == Variable::named(name, subscript),
    {
        Variable { name, subscript }
    }

    /// The name character.
    pub fn name(&self) -> (c: char)
        ensures
            c == self.name_of(),
    {
        self.name
    }

    /// The subscript, if any.
    pub fn subscript(&self) -> (s: Option<i64>)
        ensures
            s == self.subscript_of(),
    {
        self.subscript
    }

    /// Two variables are equal exactly when name and subscript are.
    pub proof fn lemma_eq(a: Variable, b: Variable)
        ensures
            (a == b) <==> (a.name_of() == b.name_of() && a.subscript_of() == b.subscript_of()),
    {
    }

    /// Three-way comparison in the order of `var_lt`: -1, 0 or 1.
    pub fn compare(&self, other: &Variable) -> (r: i8)
        ensures
            r == -1 <==> var_lt(*self, *other),
            r == 0 <==> *self == *other,
            r == 1 <==> var_lt(*other, *self),
            r == -1 || r == 0 || r == 1,
    {
        let a = self.name as u32;
        let b = other.name as u32;
        if a < b {
            -1
        } else if a > b {
            1
        } else {
            proof {
                assert(self.name == other.name);
            }
            match (self.subscript, other.subscript) {
                (None, None) => 0,
                (None, Some(_)) => -1,
                (Some(_), None) => 1,
                (Some(x), Some(y)) => {
                    if x < y {
                        -1
                    } else if x > y {
                        1
                    } else {
                        0
                    }
                },
            }
        }
    }

    /// The text the variable displays, e.g. `x` or `x₃`.
    pub fn to_string(&self) -> (s: String)
        requires
            displayable(*self),
        ensures
            s@ == var_text(*self),
    {
        let mut s = String::new();
        push_char(&mut s, self.name);
        match self.subscript {
            Some(sub) => {
                let digits = i64_subscript(sub);
                push_str(&mut s, digits.as_str());
            },
            None => {},
        }
        proof {
            assert(s@ =~= var_text(*self));
        }
        s
    }

    /// Returns the variable's SymPy-compatible string representation, e.g. `x` or `x_3`.
    pub fn to_string_sympy(&self) -> (s: String)
        ensures
            s@ == var_sympy_text(*self),
    {
        let mut s = String::new();
        push_char(&mut s, self.name);
        match self.subscript {
            Some(sub) => {
                push_char(&mut s, '_');
                let digits = i64_decimal(sub);
                push_str(&mut s, digits.as_str());
            },
            None => {},
        }
        proof {
            assert(s@ =~= var_sympy_text(*self));
        }
        s
    }
}

pub proof fn lemma_var_lt_irreflexive(a: Variable)
    ensures
        !var_lt(a, a),
{
}

pub proof fn lemma_var_lt_asymmetric(a: Variable, b: Variable)
    ensures
        var_lt(a, b) ==> !var_lt(b, a),
{
}

pub proof fn lemma_var_lt_transitive(a: Variable, b: Variable, c: Variable)
    requires
        var_lt(a, b),
        var_lt(b, c),
    ensures
        var_lt(a, c),
{
}

pub proof fn lemma_var_lt_total(a: Variable, b: Variable)
    ensures
        a == b || var_lt(a, b) || var_lt(b, a),
{
    Variable::lemma_eq(a, b);
}

} // verus!
