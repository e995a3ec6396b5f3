//! Why the encoding of a task is UTF-8: escaping keeps valid text valid,
//! and everything the encoding adds is ASCII.

use crate::task::{
    binding_text,
    bindings_text,
    escaped,
    escaped_byte,
    hex_digit,
    is_number,
    lemma_number_alphabet,
    quoted,
    task_text,
    text_head,
    text_middle,
    text_tail,
    COLON,
    COMMA,
    QUOTE,
};
use vstd::prelude::*;
use vstd::utf8::{
    length_of_first_scalar,
    pop_first_scalar,
    take_first_scalar,
    valid_first_scalar,
    valid_utf8,
    valid_utf8_concat,
};

verus! {

/// Whether every byte is an ASCII byte.
pub open spec fn is_ascii_bytes(bytes: Seq<u8>) -> bool {
    forall|i: int| 0 <= i < bytes.len() ==> (#[trigger] bytes[i]) < 128
}

/// ASCII text is valid UTF-8.
pub proof fn lemma_ascii_is_utf8(bytes: Seq<u8>)
    requires
        is_ascii_bytes(bytes),
    ensures
        valid_utf8(bytes),
    decreases bytes.len(),
{
    if bytes.len() > 0 {
        assert(bytes[0] < 128);
        assert(valid_first_scalar(bytes));
        let rest = pop_first_scalar(bytes);
        assert(rest =~= bytes.subrange(1, bytes.len() as int));
        assert forall|i: int| 0 <= i < rest.len() implies (#[trigger] rest[i]) < 128 by {
            assert(rest[i] == bytes[i + 1]);
        }
        lemma_ascii_is_utf8(rest);
    }
}

/// Escaping goes piece by piece.
pub proof fn lemma_escaped_concat(a: Seq<u8>, b: Seq<u8>)
    ensures
        escaped(a + b) == escaped(a) + escaped(b),
    decreases a.len(),
{
    if a.len() == 0 {
        assert(a + b =~= b);
        assert(escaped(a) =~= Seq::<u8>::empty());
        assert(escaped(a) + escaped(b) =~= escaped(b));
    } else {
        assert((a + b).first() == a.first());
        assert((a + b).drop_first() =~= a.drop_first() + b);
        lemma_escaped_concat(a.drop_first(), b);
        assert(escaped(a + b) =~= escaped(a) + escaped(b));
    }
}

/// Bytes that are no ASCII bytes are escaped as themselves.
pub proof fn lemma_escaped_beyond_ascii(bytes: Seq<u8>)
    requires
        forall|i: int| 0 <= i < bytes.len() ==> (#[trigger] bytes[i]) >= 128,
    ensures
        escaped(bytes) == bytes,
    decreases bytes.len(),
{
    if bytes.len() > 0 {
        assert(bytes[0] >= 128);
        let rest = bytes.drop_first();
        assert forall|i: int| 0 <= i < rest.len() implies (#[trigger] rest[i]) >= 128 by {
            assert(rest[i] == bytes[i + 1]);
        }
        lemma_escaped_beyond_ascii(rest);
        assert(escaped(bytes) =~= bytes);
    } else {
        assert(escaped(bytes) =~= bytes);
    }
}

/// The escape of an ASCII byte is ASCII.
pub proof fn lemma_escape_is_ascii(byte: u8)
    requires
        byte < 128,
    ensures
        is_ascii_bytes(escaped_byte(byte)),
{
    assert(hex_digit(byte / 16) < 128);
    assert(hex_digit(byte % 16) < 128);
}

/// Escaping keeps valid UTF-8 valid.
pub proof fn lemma_escaped_is_utf8(text: Seq<u8>)
    requires
        valid_utf8(text),
    ensures
        valid_utf8(escaped(text)),
    decreases text.len(),
{
    if text.len() > 0 {
        let first = take_first_scalar(text);
        let rest = pop_first_scalar(text);
        let width = length_of_first_scalar(text);
        assert(text =~= first + rest);
        lemma_escaped_concat(first, rest);
        lemma_escaped_is_utf8(rest);
        if width == 1 {
            assert(first =~= seq![text[0]]);
            assert(first.drop_first() =~= Seq::<u8>::empty());
            assert(escaped(Seq::<u8>::empty()) =~= Seq::<u8>::empty());
            assert(escaped(first) =~= escaped_byte(text[0]));
            lemma_escape_is_ascii(text[0]);
            lemma_ascii_is_utf8(escaped(first));
        } else {
            assert forall|i: int| 0 <= i < first.len() implies (#[trigger] first[i]) >= 128 by {
                assert(first[i] == text[i]);
            }
            lemma_escaped_beyond_ascii(first);
            assert(valid_first_scalar(first));
            assert(pop_first_scalar(first) =~= Seq::<u8>::empty());
            assert(valid_utf8(Seq::<u8>::empty()));
            assert(valid_utf8(first));
        }
        valid_utf8_concat(escaped(first), escaped(rest));
    } else {
        assert(escaped(text) =~= Seq::<u8>::empty());
    }
}

/// A single ASCII byte is valid UTF-8.
pub proof fn lemma_ascii_byte_is_utf8(byte: u8)
    requires
        byte < 128,
    ensures
        valid_utf8(seq![byte]),
{
    lemma_ascii_is_utf8(seq![byte]);
}

/// A quoted string of valid UTF-8 is valid UTF-8.
pub proof fn lemma_quoted_is_utf8(text: Seq<u8>)
    requires
        valid_utf8(text),
    ensures
        valid_utf8(quoted(text)),
{
    lemma_escaped_is_utf8(text);
    lemma_ascii_byte_is_utf8(QUOTE);
    valid_utf8_concat(seq![QUOTE], escaped(text));
    valid_utf8_concat(seq![QUOTE] + escaped(text), seq![QUOTE]);
}

/// A JSON number is valid UTF-8.
pub proof fn lemma_number_is_utf8(text: Seq<u8>)
    requires
        is_number(text),
    ensures
        valid_utf8(text),
{
    assert forall|i: int| 0 <= i < text.len() implies (#[trigger] text[i]) < 128 by {
        lemma_number_alphabet(text, i);
    }
    lemma_ascii_is_utf8(text);
}

/// Whether every name is valid UTF-8 and every value a JSON number.
pub open spec fn bindings_are_text(vars: Seq<(Seq<u8>, Seq<u8>)>) -> bool {
    forall|i: int|
        0 <= i < vars.len() ==> valid_utf8((#[trigger] vars[i]).0) && is_number(vars[i].1)
}

/// The text of the bindings is valid UTF-8.
pub proof fn lemma_bindings_are_utf8(vars: Seq<(Seq<u8>, Seq<u8>)>)
    requires
        bindings_are_text(vars),
    ensures
        valid_utf8(bindings_text(vars)),
    decreases vars.len(),
{
    if vars.len() > 0 {
        let name = vars.first().0;
        let value = vars.first().1;
        assert(valid_utf8(vars[0].0) && is_number(vars[0].1));
        lemma_quoted_is_utf8(name);
        lemma_number_is_utf8(value);
        lemma_ascii_byte_is_utf8(COLON);
        valid_utf8_concat(quoted(name), seq![COLON]);
        valid_utf8_concat(quoted(name) + seq![COLON], value);
        if vars.len() > 1 {
            let rest = vars.drop_first();
            assert forall|i: int| 0 <= i < rest.len() implies valid_utf8((#[trigger] rest[i]).0)
                && is_number(rest[i].1) by {
                assert(valid_utf8(vars[i + 1].0) && is_number(vars[i + 1].1));
            }
            lemma_bindings_are_utf8(rest);
            lemma_ascii_byte_is_utf8(COMMA);
            valid_utf8_concat(binding_text(name, value), seq![COMMA]);
            valid_utf8_concat(binding_text(name, value) + seq![COMMA], bindings_text(rest));
        }
    }
}

/// The text of a task is valid UTF-8 when the expression and the names
/// are.
pub proof fn lemma_task_text_is_utf8(expr: Seq<u8>, vars: Seq<(Seq<u8>, Seq<u8>)>)
    requires
        valid_utf8(expr),
        bindings_are_text(vars),
    ensures
        valid_utf8(task_text(expr, vars)),
{
    lemma_ascii_is_utf8(text_head());
    lemma_ascii_is_utf8(text_middle());
    lemma_ascii_is_utf8(text_tail());
    lemma_quoted_is_utf8(expr);
    lemma_bindings_are_utf8(vars);
    valid_utf8_concat(text_head(), quoted(expr));
    valid_utf8_concat(text_head() + quoted(expr), text_middle());
    valid_utf8_concat(text_head() + quoted(expr) + text_middle(), bindings_text(vars));
    valid_utf8_concat(
        text_head() + quoted(expr) + text_middle() + bindings_text(vars),
        text_tail(),
    );
}

} // verus!
