//! Plain values and helpers of the small programs that demonstrate the
//! rules: strings and lists that are moved, integers that are copied.
use vstd::prelude::*;
use vstd::string::StringExecFns;

verus! {

/// A clump of owned data: a string, a list, and a cursor into the list.
#[derive(Debug)]
pub struct BunchaData {
    /// The string.
    pub s: String,
    /// The list.
    pub t: Vec<usize>,
    /// The cursor into the list.
    pub curr: usize,
}

impl BunchaData {
    /// A clump that takes over `t` as it is, with an empty string and the
    /// cursor at the start.
    pub fn with_empty_string(t: Vec<usize>) -> (r: BunchaData)
        ensures
            r.s@ == Seq::<char>::empty(),
            r.t == t,
            r.curr == 0,
    {
        BunchaData { s: String::new(), t, curr: 0 }
    }
}

/// `prefix`, `between` and `suffix` in this order, in a new string. The
/// function consumes `prefix` and `suffix`.
pub fn concat_strings(prefix: String, between: &str, suffix: String) -> (r: String)
    ensures
        r@ == prefix@ + between@ + suffix@,
{
    let mut joined = String::new();
    joined.append(prefix.as_str());
    joined.append(between);
    joined.append(suffix.as_str());
    proof {
        assert(Seq::<char>::empty() + prefix@ =~= prefix@);
    }
    joined
}

/// The same string as `concat_strings` gives, built by growing `prefix`.
pub fn other_concat_strings(prefix: String, between: &str, suffix: String) -> (r: String)
    ensures
        r@ == prefix@ + between@ + suffix@,
{
    let mut grown = prefix;
    grown.append(between);
    grown.append(suffix.as_str());
    grown
}

/// `x * y + 10`, for operands whose product and result fit in an `i32`.
pub fn arith_man(x: i32, y: i32) -> (r: i32)
    requires
        i32::MIN <= x * y <= i32::MAX,
        x * y + 10 <= i32::MAX,
    ensures
        r == x * y + 10,
{
    x * y + 10
}

} // verus!
