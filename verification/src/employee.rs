//! Employees in order of seniority: by years of service, and by name among
//! those who have served equally long.

use core::cmp::Ordering;
use vstd::prelude::*;
use vstd::std_specs::cmp::PartialEqSpec;
use vstd::std_specs::cmp::PartialOrdSpec;

verus! {

/// An employee. The fields stand in the order in which they are compared.
#[derive(Debug, Eq, Ord)]
pub struct Employee {
    pub years_of_service: u32,
    pub name: String,
}

/// How two texts compare character by character, the first difference
/// deciding and a text coming before its extensions: negative where `a`
/// comes first, positive where `b` does, 0 where they are the same.
pub open spec fn text_order(a: Seq<char>, b: Seq<char>) -> int
    decreases a.len(),
{
    if a.len() == 0 {
        if b.len() == 0 {
            0
        } else {
            -1
        }
    } else if b.len() == 0 {
        1
    } else if a[0] < b[0] {
        -1
    } else if a[0] > b[0] {
        1
    } else {
        text_order(a.drop_first(), b.drop_first())
    }
}

/// How two employees compare: negative where `a` comes first, positive
/// where `b` does, 0 where both the years and the names are the same.
pub open spec fn seniority_order(a: Employee, b: Employee) -> int {
    if a.years_of_service < b.years_of_service {
        -1
    } else if a.years_of_service > b.years_of_service {
        1
    } else {
        text_order(a.name@, b.name@)
    }
}

/// Texts compare as equal exactly when they are the same text.
pub proof fn lemma_text_order_zero(a: Seq<char>, b: Seq<char>)
    ensures
        text_order(a, b) == 0 <==> a == b,
    decreases a.len(),
{
    if a.len() > 0 && b.len() > 0 {
        lemma_text_order_zero(a.drop_first(), b.drop_first());
        if a[0] == b[0] && a.drop_first() == b.drop_first() {
            assert(a =~= seq![a[0]] + a.drop_first());
            assert(b =~= seq![b[0]] + b.drop_first());
        }
    } else if a.len() == 0 && b.len() == 0 {
        assert(a =~= b);
    }
}

/// Turning two texts round turns their order round.
pub proof fn lemma_text_order_mirrors(a: Seq<char>, b: Seq<char>)
    ensures
        text_order(a, b) < 0 <==> text_order(b, a) > 0,
        text_order(a, b) == 0 <==> text_order(b, a) == 0,
    decreases a.len(),
{
    if a.len() > 0 && b.len() > 0 {
        lemma_text_order_mirrors(a.drop_first(), b.drop_first());
    }
}

/// Calls `str::cmp`, which orders texts by their bytes and so, as its
/// documentation has it, by the place of their characters in the code
/// charts. The contract claims that order.
#[verifier::external_body]
fn compare_text(a: &str, b: &str) -> (o: Ordering)
    ensures
        o == Ordering::Less <==> text_order(a@, b@) < 0,
        o == Ordering::Equal <==> text_order(a@, b@) == 0,
        o == Ordering::Greater <==> text_order(a@, b@) > 0,
{
    a.cmp(b)
}

impl PartialEq for Employee {
    /// Two employees are equal when their years and their names are.
    fn eq(&self, other: &Self) -> (r: bool) {
        self.years_of_service == other.years_of_service && self.name == other.name
    }
}

impl vstd::std_specs::cmp::PartialEqSpecImpl for Employee {
    open spec fn obeys_eq_spec() -> bool {
        true
    }

    open spec fn eq_spec(&self, other: &Self) -> bool {
        self.years_of_service == other.years_of_service && self.name@ == other.name@
    }
}

impl PartialOrd for Employee {
    /// Compares the years of service, and the names where the years are
    /// the same.
    fn partial_cmp(&self, other: &Self) -> (r: Option<Ordering>) {
        if self.years_of_service < other.years_of_service {
            Some(Ordering::Less)
        } else if self.years_of_service > other.years_of_service {
            Some(Ordering::Greater)
        } else {
            Some(compare_text(self.name.as_str(), other.name.as_str()))
        }
    }
}

impl vstd::std_specs::cmp::PartialOrdSpecImpl for Employee {
    open spec fn obeys_partial_cmp_spec() -> bool {
        true
    }

    open spec fn partial_cmp_spec(&self, other: &Self) -> Option<Ordering> {
        if seniority_order(*self, *other) < 0 {
            Some(Ordering::Less)
        } else if seniority_order(*self, *other) > 0 {
            Some(Ordering::Greater)
        } else {
            Some(Ordering::Equal)
        }
    }
}

/// Two employees compare as equal exactly when `==` holds of them.
pub proof fn lemma_seniority_agrees_with_equality(a: Employee, b: Employee)
    ensures
        a.partial_cmp_spec(&b) == Some(Ordering::Equal) <==> a.eq_spec(&b),
{
    lemma_text_order_zero(a.name@, b.name@);
}

} // verus!
