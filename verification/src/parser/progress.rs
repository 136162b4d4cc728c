//! Every parser of the grammar reads at least one byte where it reads
//! anything, so `consuming` never drops a result.

use crate::parser::grammar::{
    after,
    after_byte,
    array,
    assign,
    binary,
    body,
    boolean,
    call,
    call_arguments,
    consuming,
    elements,
    expression,
    function,
    if_statement,
    index,
    leading,
    literal,
    member,
    method,
    more_elements,
    more_names,
    name,
    names,
    number,
    operand,
    operator,
    postfix,
    primary,
    return_statement,
    simple_statement,
    statement,
    text,
    while_loop,
};
use vstd::prelude::*;
use vstd::string::StringSliceAdditionalSpecFns;

verus! {

/// Whether `result`, if there is one, left fewer bytes than `code` has.
pub open spec fn consumes<T>(result: Option<(T, Seq<u8>)>, code: Seq<u8>) -> bool {
    result matches Some((_, rest)) ==> rest.len() < code.len()
}

/// The leading bytes that satisfy `wanted` end where the text does or at the
/// first byte that does not satisfy it.
pub proof fn lemma_leading(code: Seq<u8>, wanted: spec_fn(u8) -> bool)
    ensures
        leading(code, wanted) <= code.len(),
        forall|i: int| 0 <= i < leading(code, wanted) ==> wanted(#[trigger] code[i]),
        leading(code, wanted) < code.len() ==> !wanted(code[leading(code, wanted) as int]),
    decreases code.len(),
{
    if code.len() > 0 && wanted(code[0]) {
        let rest = code.skip(1);
        lemma_leading(rest, wanted);
        assert forall|i: int| 0 <= i < leading(code, wanted) implies wanted(#[trigger] code[i]) by {
            if i > 0 {
                assert(code[i] == rest[i - 1]);
            }
        }
        if leading(code, wanted) < code.len() {
            assert(code[leading(code, wanted) as int] == rest[leading(rest, wanted) as int]);
        }
    }
}

/// A prefix whose bytes all satisfy `wanted`, and that ends where the text
/// does or before a byte that does not satisfy it, is the leading run.
pub proof fn lemma_leading_is(code: Seq<u8>, wanted: spec_fn(u8) -> bool, length: nat)
    requires
        length <= code.len(),
        forall|i: int| 0 <= i < length ==> wanted(#[trigger] code[i]),
        length < code.len() ==> !wanted(code[length as int]),
    ensures
        leading(code, wanted) == length,
    decreases length,
{
    if length > 0 {
        let rest = code.skip(1);
        assert(wanted(code[0]));
        assert forall|i: int| 0 <= i < length - 1 implies wanted(#[trigger] rest[i]) by {
            assert(rest[i] == code[i + 1]);
        }
        if length - 1 < rest.len() {
            assert(rest[length - 1] == code[length as int]);
        }
        lemma_leading_is(rest, wanted, (length - 1) as nat);
    }
}

/// The keywords `true` and `false` are not empty, and the quote is one byte.
pub proof fn lemma_literals()
    ensures
        "true".spec_bytes().len() == 4,
        "false".spec_bytes().len() == 5,
        "\"".spec_bytes() == seq![0x22u8],
{
    reveal_strlit("true");
    reveal_strlit("false");
    reveal_strlit("\"");
    broadcast use vstd::string::is_ascii_spec_bytes;
    assert(vstd::string::is_ascii("true"));
    assert(vstd::string::is_ascii("false"));
    assert(vstd::string::is_ascii("\""));
    assert("\"".spec_bytes() =~= seq![0x22u8]);
}

/// An identifier reads at least one byte.
pub proof fn lemma_name(code: Seq<u8>)
    ensures
        consumes(name(code), code),
{
    lemma_leading(code, |byte: u8| crate::parser::grammar::is_name_byte(byte));
}

/// A literal reads at least one byte.
pub proof fn lemma_literal(code: Seq<u8>)
    ensures
        consumes(literal(code), code),
        consumes(boolean(code), code),
        consumes(number(code), code),
        consumes(text(code), code),
{
    lemma_literals();
    lemma_leading(code, |byte: u8| crate::number::decimal::is_digit(byte));
    if after_byte(code, 0x22) is Some {
        lemma_leading(code.skip(1), |byte: u8| crate::parser::grammar::is_text_byte(byte));
    }
}

/// An operator between its spaces reads at least two bytes.
pub proof fn lemma_operator(code: Seq<u8>, tier: nat)
    ensures
        operator(code, tier) matches Some((_, rest)) ==> rest.len() + 2 <= code.len(),
{
}

/// A primary expression reads at least one byte.
pub proof fn lemma_primary(code: Seq<u8>)
    ensures
        consumes(primary(code), code),
    decreases code.len(), 1nat,
{
    lemma_array(code);
    lemma_literal(code);
    lemma_name(code);
}

/// An array literal reads at least one byte.
pub proof fn lemma_array(code: Seq<u8>)
    ensures
        consumes(array(code), code),
    decreases code.len(), 0nat,
{
    if after_byte(code, 0x5b) is Some {
        lemma_elements(code.skip(1));
    }
}

/// The arguments of a call read at least one byte.
pub proof fn lemma_call_arguments(code: Seq<u8>)
    ensures
        consumes(call_arguments(code), code),
    decreases code.len(), 0nat,
{
    if after_byte(code, 0x28) is Some {
        lemma_elements(code.skip(1));
    }
}

/// A list of expressions leaves no more than it was given.
pub proof fn lemma_elements(code: Seq<u8>)
    ensures
        elements(code).1.len() <= code.len(),
    decreases code.len(), 14nat,
{
    lemma_expression(code);
    if let Some((_, rest)) = expression(code) {
        lemma_more_elements(rest);
    }
}

/// The rest of a list of expressions leaves no more than it was given.
pub proof fn lemma_more_elements(code: Seq<u8>)
    ensures
        more_elements(code).1.len() <= code.len(),
    decreases code.len(), 14nat,
{
    if let Some(inner) = after(code, ", ".spec_bytes()) {
        lemma_expression(inner);
        if let Some((_, rest)) = expression(inner) {
            lemma_more_elements(rest);
        }
    }
}

/// A method call reads at least one byte.
pub proof fn lemma_method(code: Seq<u8>)
    ensures
        consumes(method(code), code),
    decreases code.len(), 2nat,
{
    lemma_primary(code);
    if let Some((_, rest)) = primary(code) {
        if let Some(inner) = after_byte(rest, 0x2e) {
            lemma_name(inner);
            if let Some((_, rest)) = name(inner) {
                lemma_call_arguments(rest);
            }
        }
    }
}

/// A member access reads at least one byte.
pub proof fn lemma_member(code: Seq<u8>)
    ensures
        consumes(member(code), code),
    decreases code.len(), 2nat,
{
    lemma_primary(code);
    if let Some((_, rest)) = primary(code) {
        if let Some(inner) = after_byte(rest, 0x2e) {
            lemma_name(inner);
        }
    }
}

/// An index reads at least one byte.
pub proof fn lemma_index(code: Seq<u8>)
    ensures
        consumes(index(code), code),
    decreases code.len(), 2nat,
{
    lemma_primary(code);
    if let Some((_, rest)) = primary(code) {
        if let Some(inner) = after_byte(rest, 0x5b) {
            lemma_expression(inner);
        }
    }
}

/// A call reads at least one byte.
pub proof fn lemma_call(code: Seq<u8>)
    ensures
        consumes(call(code), code),
    decreases code.len(), 2nat,
{
    lemma_name(code);
    if let Some((_, rest)) = name(code) {
        lemma_call_arguments(rest);
    }
}

/// A postfix expression reads at least one byte.
pub proof fn lemma_postfix(code: Seq<u8>)
    ensures
        consumes(postfix(code), code),
    decreases code.len(), 3nat,
{
    lemma_method(code);
    lemma_member(code);
    lemma_index(code);
    lemma_call(code);
    lemma_primary(code);
}

/// One application of a binary operator reads at least one byte.
pub proof fn lemma_binary(code: Seq<u8>, tier: nat)
    ensures
        consumes(binary(code, tier), code),
    decreases code.len(), 2 * tier + 3,
{
    if tier > 0 {
        lemma_operand(code, (tier - 1) as nat);
        if let Some((_, rest)) = operand(code, (tier - 1) as nat) {
            if let Some((_, inner)) = operator(rest, tier) {
                lemma_operand(inner, (tier - 1) as nat);
            }
        }
    }
}

/// An expression of a tier reads at least one byte.
pub proof fn lemma_operand(code: Seq<u8>, tier: nat)
    ensures
        consumes(operand(code, tier), code),
    decreases code.len(), 2 * tier + 4,
{
    if tier == 0 {
        lemma_postfix(code);
    } else {
        lemma_binary(code, tier);
        lemma_operand(code, (tier - 1) as nat);
    }
}

/// An expression reads at least one byte.
pub proof fn lemma_expression(code: Seq<u8>)
    ensures
        consumes(expression(code), code),
    decreases code.len(), 13nat,
{
    lemma_operand(code, 4);
}

/// A simple statement reads at least one byte.
pub proof fn lemma_simple_statement(code: Seq<u8>)
    ensures
        consumes(simple_statement(code), code),
        consumes(return_statement(code), code),
        consumes(assign(code), code),
{
    if let Some(inner) = after(code, "return ".spec_bytes()) {
        lemma_expression(inner);
    }
    lemma_name(code);
    if let Some((_, rest)) = name(code) {
        if let Some(inner) = after(rest, " = ".spec_bytes()) {
            lemma_expression(inner);
        }
    }
}

/// A block leaves no more than it was given.
pub proof fn lemma_body(code: Seq<u8>)
    ensures
        body(code).1.len() <= code.len(),
    decreases code.len(),
{
    if let Some(inner) = after(code, "\n    ".spec_bytes()) {
        lemma_simple_statement(inner);
        if let Some((_, rest)) = simple_statement(inner) {
            lemma_body(rest);
        }
    }
}

/// The rest of a list of identifiers leaves no more than it was given.
pub proof fn lemma_more_names(code: Seq<u8>)
    ensures
        more_names(code).1.len() <= code.len(),
    decreases code.len(),
{
    if let Some(inner) = after(code, ", ".spec_bytes()) {
        lemma_name(inner);
        if let Some((_, rest)) = name(inner) {
            lemma_more_names(rest);
        }
    }
}

/// A list of identifiers leaves no more than it was given.
pub proof fn lemma_names(code: Seq<u8>)
    ensures
        names(code).1.len() <= code.len(),
{
    lemma_name(code);
    if let Some((_, rest)) = name(code) {
        lemma_more_names(rest);
    }
}

/// A statement reads at least one byte.
pub proof fn lemma_statement(code: Seq<u8>)
    ensures
        consumes(statement(code), code),
        consumes(function(code), code),
        consumes(while_loop(code), code),
        consumes(if_statement(code), code),
{
    lemma_simple_statement(code);
    if let Some(inner) = after(code, "func ".spec_bytes()) {
        lemma_name(inner);
        if let Some((_, rest)) = name(inner) {
            if let Some(inner) = after_byte(rest, 0x28) {
                lemma_names(inner);
                let (_, rest) = names(inner);
                if let Some(inner) = after_byte(rest, 0x29) {
                    lemma_body(inner);
                }
            }
        }
    }
    if let Some(inner) = after(code, "while ".spec_bytes()) {
        lemma_expression(inner);
        if let Some((_, rest)) = expression(inner) {
            lemma_body(rest);
        }
    }
    if let Some(inner) = after(code, "if ".spec_bytes()) {
        lemma_expression(inner);
        if let Some((_, rest)) = expression(inner) {
            lemma_body(rest);
        }
    }
}

} // verus!
