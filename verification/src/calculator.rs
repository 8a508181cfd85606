//! The calculator object of the example worker: `add` and `mul` on the
//! first two elements of the argument list.
use crate::json::{as_i64_view, element_view, int_view, lemma_view_entries, JsonValue, JsonView};
use crate::rpc::owned;
use vstd::prelude::*;

verus! {

/// Operand `i` of a call: the `i`-th element of the arguments when it is a
/// 64-bit integer, 0 otherwise.
pub open spec fn operand(args: JsonView, i: int) -> int {
    match element_view(args, i) {
        Some(e) => match as_i64_view(e) {
            Some(n) => n,
            None => 0,
        },
        None => 0,
    }
}

/// Whether a calculator call stays within 64-bit integers.
pub open spec fn in_range(method: Seq<char>, args: JsonView) -> bool {
    let a = operand(args, 0);
    let b = operand(args, 1);
    &&& method == "add"@ ==> i64::MIN <= a + b <= i64::MAX
    &&& method == "mul"@ ==> i64::MIN <= a * b <= i64::MAX
}

/// What a calculator call answers.
pub open spec fn calculator_result(method: Seq<char>, args: JsonView) -> JsonView {
    if method == "add"@ {
        int_view(operand(args, 0) + operand(args, 1))
    } else if method == "mul"@ {
        int_view(operand(args, 0) * operand(args, 1))
    } else {
        JsonView::String("Unknown method"@)
    }
}

/// A worker object that adds and multiplies integers.
pub struct Calculator;

fn operand_at(args: &JsonValue, i: usize) -> (n: i64)
    ensures
        n == operand(args@, i as int),
{
    match args.get(i) {
        Some(e) => match e.as_i64() {
            Some(n) => n,
            None => 0,
        },
        None => 0,
    }
}

impl Calculator {
    /// Answers `add` with the sum and `mul` with the product of the first
    /// two arguments (a missing or non-integer argument counts as 0); any
    /// other method with the text `Unknown method`.
    pub fn call(&self, method: &str, args: &JsonValue) -> (v: JsonValue)
        requires
            in_range(method@, args@),
        ensures
            v@ == calculator_result(method@, args@),
    {
        let m = owned(method);
        if m == owned("add") {
            let a = operand_at(args, 0);
            let b = operand_at(args, 1);
            JsonValue::from_i64(a + b)
        } else if m == owned("mul") {
            let a = operand_at(args, 0);
            let b = operand_at(args, 1);
            JsonValue::from_i64(a * b)
        } else {
            JsonValue::String(owned("Unknown method"))
        }
    }
}

/// What the `math` object answers, given its arguments read as the two
/// integers `a` and `b` or the reason they could not be read: `add` gives
/// `{"sum": a + b}`, `mul` gives `{"product": a * b}`, unreadable arguments
/// give `Invalid args: ` and the reason, and any other method gives
/// `Unknown method`.
pub open spec fn math_result(method: Seq<char>, args: Result<(i32, i32), Seq<char>>) -> JsonView {
    match args {
        Ok((a, b)) => if method == "add"@ {
            JsonView::Object(seq![("sum"@, int_view(a + b))])
        } else if method == "mul"@ {
            JsonView::Object(seq![("product"@, int_view(a * b))])
        } else {
            JsonView::String("Unknown method"@)
        },
        Err(e) => JsonView::String("Invalid args: "@ + e),
    }
}

/// Whether a `math` call stays within 32-bit integers.
pub open spec fn math_in_range(method: Seq<char>, args: Result<(i32, i32), Seq<char>>) -> bool {
    match args {
        Ok((a, b)) => {
            &&& method == "add"@ ==> i32::MIN <= a + b <= i32::MAX
            &&& method == "mul"@ ==> i32::MIN <= a * b <= i32::MAX
        },
        Err(_) => true,
    }
}

/// The calculator of the example `math` worker, whose arguments are an
/// object with integer fields `a` and `b`.
pub struct MathCalculator;

impl MathCalculator {
    /// Answers a call whose arguments were read as `(a, b)`, or could not be
    /// read for the given reason.
    pub fn call(&self, method: &str, args: Result<(i32, i32), String>) -> (v: JsonValue)
        requires
            math_in_range(
                method@,
                match args {
                    Ok(p) => Ok(p),
                    Err(e) => Err(e@),
                },
            ),
        ensures
            v@ == math_result(
                method@,
                match args {
                    Ok(p) => Ok(p),
                    Err(e) => Err(e@),
                },
            ),
    {
        match args {
            Ok((a, b)) => {
                let m = owned(method);
                if m == owned("add") {
                    let mut entries: Vec<(String, JsonValue)> = Vec::new();
                    entries.push((owned("sum"), JsonValue::from_i64((a + b) as i64)));
                    let v = JsonValue::Object(entries);
                    proof {
                        lemma_view_entries(entries@);
                        assert(crate::json::view_entries(entries@) =~= seq![("sum"@, int_view(a + b))]);
                    }
                    v
                } else if m == owned("mul") {
                    let mut entries: Vec<(String, JsonValue)> = Vec::new();
                    entries.push((owned("product"), JsonValue::from_i64((a * b) as i64)));
                    let v = JsonValue::Object(entries);
                    proof {
                        lemma_view_entries(entries@);
                        assert(crate::json::view_entries(entries@) =~= seq![("product"@, int_view(a * b))]);
                    }
                    v
                } else {
                    JsonValue::String(owned("Unknown method"))
                }
            },
            Err(e) => JsonValue::String(owned("Invalid args: ").concat(e.as_str())),
        }
    }
}

} // verus!
