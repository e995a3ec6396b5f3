//! Why the encoding of a task is unambiguous: the line determines the
//! expression and every binding, whatever delimiters the expression and
//! the names hold.

use crate::task::{
    binding_text,
    bindings_text,
    escaped,
    escaped_byte,
    hex_digit,
    is_number,
    is_number_byte,
    lemma_number_alphabet,
    quoted,
    task_text,
    text_head,
    text_middle,
    text_tail,
    values_are_numbers,
    Task,
    BACKSLASH,
    CLOSE,
    COLON,
    COMMA,
    QUOTE,
    SPACE,
};
use vstd::prelude::*;
use vstd::utf8::{decode_utf8, encode_utf8};

verus! {

/// No escape starts with a quote.
pub proof fn lemma_escape_starts_unquoted(byte: u8)
    ensures
        escaped_byte(byte).len() >= 1,
        escaped_byte(byte)[0] != QUOTE,
{
}

/// An escape tells where it ends: when two texts that start with an escape
/// are the same, the escaped bytes are the same and so are the rests.
pub proof fn lemma_escape_delimits(a: u8, b: u8, rest_a: Seq<u8>, rest_b: Seq<u8>)
    requires
        escaped_byte(a) + rest_a == escaped_byte(b) + rest_b,
    ensures
        a == b,
        rest_a == rest_b,
{
    let left = escaped_byte(a) + rest_a;
    let right = escaped_byte(b) + rest_b;
    assert(left[0] == escaped_byte(a)[0]);
    assert(right[0] == escaped_byte(b)[0]);
    if a == QUOTE || a == BACKSLASH {
        assert(left[1] == a);
        assert(right[1] == escaped_byte(b)[1]);
    } else if a < SPACE {
        assert(left[1] == 117);
        assert(right[1] == escaped_byte(b)[1]);
        assert(left[4] == hex_digit(a / 16) && left[5] == hex_digit(a % 16));
        assert(right[4] == hex_digit(b / 16) && right[5] == hex_digit(b % 16));
        assert(a / 16 == b / 16 && a % 16 == b % 16);
    }
    assert(a == b);
    assert(rest_a =~= left.skip(escaped_byte(a).len() as int));
    assert(rest_b =~= right.skip(escaped_byte(b).len() as int));
}

/// An escaped text that is closed by a quote tells where it ends.
pub proof fn lemma_escaped_delimits(a: Seq<u8>, b: Seq<u8>, rest_a: Seq<u8>, rest_b: Seq<u8>)
    requires
        escaped(a) + seq![QUOTE] + rest_a == escaped(b) + seq![QUOTE] + rest_b,
    ensures
        a == b,
        rest_a == rest_b,
    decreases a.len(),
{
    let left = escaped(a) + seq![QUOTE] + rest_a;
    let right = escaped(b) + seq![QUOTE] + rest_b;
    if a.len() == 0 && b.len() == 0 {
        assert(rest_a =~= left.skip(1));
        assert(rest_b =~= right.skip(1));
        assert(a =~= b);
    } else if a.len() == 0 {
        lemma_escape_starts_unquoted(b.first());
        assert(left[0] == QUOTE);
        assert(right[0] == escaped_byte(b.first())[0]);
    } else if b.len() == 0 {
        lemma_escape_starts_unquoted(a.first());
        assert(right[0] == QUOTE);
        assert(left[0] == escaped_byte(a.first())[0]);
    } else {
        let tail_a = escaped(a.drop_first()) + seq![QUOTE] + rest_a;
        let tail_b = escaped(b.drop_first()) + seq![QUOTE] + rest_b;
        assert(left =~= escaped_byte(a.first()) + tail_a);
        assert(right =~= escaped_byte(b.first()) + tail_b);
        lemma_escape_delimits(a.first(), b.first(), tail_a, tail_b);
        lemma_escaped_delimits(a.drop_first(), b.drop_first(), rest_a, rest_b);
        assert(a =~= seq![a.first()] + a.drop_first());
        assert(b =~= seq![b.first()] + b.drop_first());
    }
}

/// A quoted string tells where it ends: when two texts that start with a
/// quoted string are the same, the quoted texts are the same and so are
/// the rests.
pub proof fn lemma_quoted_delimits(a: Seq<u8>, b: Seq<u8>, rest_a: Seq<u8>, rest_b: Seq<u8>)
    requires
        quoted(a) + rest_a == quoted(b) + rest_b,
    ensures
        a == b,
        rest_a == rest_b,
{
    let left = quoted(a) + rest_a;
    let right = quoted(b) + rest_b;
    let inner_a = escaped(a) + seq![QUOTE] + rest_a;
    let inner_b = escaped(b) + seq![QUOTE] + rest_b;
    assert(inner_a =~= left.skip(1));
    assert(inner_b =~= right.skip(1));
    lemma_escaped_delimits(a, b, rest_a, rest_b);
}

/// A number that is followed by a byte that no number holds tells where
/// it ends.
pub proof fn lemma_number_delimits(
    a: Seq<u8>,
    b: Seq<u8>,
    stop_a: u8,
    stop_b: u8,
    rest_a: Seq<u8>,
    rest_b: Seq<u8>,
)
    requires
        is_number(a),
        is_number(b),
        !is_number_byte(stop_a),
        !is_number_byte(stop_b),
        a + seq![stop_a] + rest_a == b + seq![stop_b] + rest_b,
    ensures
        a == b,
        stop_a == stop_b,
        rest_a == rest_b,
{
    let left = a + seq![stop_a] + rest_a;
    let right = b + seq![stop_b] + rest_b;
    if a.len() < b.len() {
        lemma_number_alphabet(b, a.len() as int);
        assert(left[a.len() as int] == stop_a);
        assert(right[a.len() as int] == b[a.len() as int]);
    } else if b.len() < a.len() {
        lemma_number_alphabet(a, b.len() as int);
        assert(right[b.len() as int] == stop_b);
        assert(left[b.len() as int] == a[b.len() as int]);
    } else {
        assert(a =~= left.take(a.len() as int));
        assert(b =~= right.take(b.len() as int));
        assert(left[a.len() as int] == stop_a);
        assert(right[b.len() as int] == stop_b);
        assert(rest_a =~= left.skip(a.len() as int + 1));
        assert(rest_b =~= right.skip(b.len() as int + 1));
    }
}

/// The byte behind the first binding: a comma when more bindings follow,
/// the closing brace when none does.
pub open spec fn stop_after_first(vars: Seq<(Seq<u8>, Seq<u8>)>) -> u8 {
    if vars.len() == 1 {
        CLOSE
    } else {
        COMMA
    }
}

/// What follows that byte in the text of the bindings closed by a brace.
pub open spec fn text_after_first(vars: Seq<(Seq<u8>, Seq<u8>)>, rest: Seq<u8>) -> Seq<u8> {
    if vars.len() == 1 {
        rest
    } else {
        bindings_text(vars.drop_first()) + seq![CLOSE] + rest
    }
}

/// The text of one binding or more, closed by a brace, starts with the
/// first name in quotes; then come a colon, the first value, the byte that
/// ends it, and what follows.
pub proof fn lemma_bindings_unfold(vars: Seq<(Seq<u8>, Seq<u8>)>, rest: Seq<u8>)
    requires
        vars.len() > 0,
    ensures
        bindings_text(vars) + seq![CLOSE] + rest == quoted(vars.first().0) + (seq![COLON]
            + vars.first().1 + seq![stop_after_first(vars)] + text_after_first(vars, rest)),
{
    let left = bindings_text(vars) + seq![CLOSE] + rest;
    let right = quoted(vars.first().0) + (seq![COLON] + vars.first().1 + seq![
        stop_after_first(vars),
    ] + text_after_first(vars, rest));
    assert(left =~= right);
}

/// Two texts of bindings that are the same start with the same binding,
/// and what follows that binding is the same.
pub proof fn lemma_first_binding_delimits(
    a: Seq<(Seq<u8>, Seq<u8>)>,
    b: Seq<(Seq<u8>, Seq<u8>)>,
    rest_a: Seq<u8>,
    rest_b: Seq<u8>,
)
    requires
        a.len() > 0,
        b.len() > 0,
        is_number(a.first().1),
        is_number(b.first().1),
        bindings_text(a) + seq![CLOSE] + rest_a == bindings_text(b) + seq![CLOSE] + rest_b,
    ensures
        a.first() == b.first(),
        stop_after_first(a) == stop_after_first(b),
        text_after_first(a, rest_a) == text_after_first(b, rest_b),
{
    lemma_bindings_unfold(a, rest_a);
    lemma_bindings_unfold(b, rest_b);
    let value_a = a.first().1;
    let value_b = b.first().1;
    let stop_a = stop_after_first(a);
    let stop_b = stop_after_first(b);
    let after_a = text_after_first(a, rest_a);
    let after_b = text_after_first(b, rest_b);
    let colon_a = seq![COLON] + value_a + seq![stop_a] + after_a;
    let colon_b = seq![COLON] + value_b + seq![stop_b] + after_b;
    lemma_quoted_delimits(a.first().0, b.first().0, colon_a, colon_b);
    assert(value_a + seq![stop_a] + after_a =~= colon_a.skip(1));
    assert(value_b + seq![stop_b] + after_b =~= colon_b.skip(1));
    lemma_number_delimits(value_a, value_b, stop_a, stop_b, after_a, after_b);
}

/// Values that are numbers stay numbers when the first binding is left
/// out.
pub proof fn lemma_numbers_drop_first(vars: Seq<(Seq<u8>, Seq<u8>)>)
    requires
        vars.len() > 0,
        values_are_numbers(vars),
    ensures
        values_are_numbers(vars.drop_first()),
        is_number(vars.first().1),
{
    assert(is_number(vars[0].1));
    assert forall|i: int| 0 <= i < vars.drop_first().len() implies is_number(
        (#[trigger] vars.drop_first()[i]).1,
    ) by {
        assert(is_number(vars[i + 1].1));
    }
}

/// The text of the bindings, closed by a brace, tells the bindings.
pub proof fn lemma_bindings_delimit(
    a: Seq<(Seq<u8>, Seq<u8>)>,
    b: Seq<(Seq<u8>, Seq<u8>)>,
    rest_a: Seq<u8>,
    rest_b: Seq<u8>,
)
    requires
        values_are_numbers(a),
        values_are_numbers(b),
        bindings_text(a) + seq![CLOSE] + rest_a == bindings_text(b) + seq![CLOSE] + rest_b,
    ensures
        a == b,
        rest_a == rest_b,
    decreases a.len(),
{
    let left = bindings_text(a) + seq![CLOSE] + rest_a;
    let right = bindings_text(b) + seq![CLOSE] + rest_b;
    if a.len() == 0 && b.len() == 0 {
        assert(rest_a =~= left.skip(1));
        assert(rest_b =~= right.skip(1));
        assert(a =~= b);
    } else if a.len() == 0 {
        lemma_starts_with_quote(b);
        assert(left[0] == CLOSE);
        assert(right[0] == bindings_text(b)[0]);
    } else if b.len() == 0 {
        lemma_starts_with_quote(a);
        assert(right[0] == CLOSE);
        assert(left[0] == bindings_text(a)[0]);
    } else {
        lemma_numbers_drop_first(a);
        lemma_numbers_drop_first(b);
        lemma_first_binding_delimits(a, b, rest_a, rest_b);
        if a.len() > 1 {
            lemma_bindings_delimit(a.drop_first(), b.drop_first(), rest_a, rest_b);
        } else {
            assert(a.drop_first() =~= b.drop_first());
        }
        assert(a =~= seq![a.first()] + a.drop_first());
        assert(b =~= seq![b.first()] + b.drop_first());
    }
}

/// The text of one binding or more starts with a quote.
pub proof fn lemma_starts_with_quote(vars: Seq<(Seq<u8>, Seq<u8>)>)
    requires
        vars.len() > 0,
    ensures
        bindings_text(vars).len() > 0,
        bindings_text(vars)[0] == QUOTE,
{
    let name = quoted(vars.first().0);
    assert(name[0] == QUOTE);
    let one = binding_text(vars.first().0, vars.first().1);
    assert(one[0] == name[0]);
    if vars.len() > 1 {
        assert(bindings_text(vars)[0] == one[0]);
    }
}

/// The encoding is unambiguous: two tasks with the same text have the same
/// expression and the same bindings, in the same order.
pub proof fn lemma_task_text_injective(
    expr_a: Seq<u8>,
    vars_a: Seq<(Seq<u8>, Seq<u8>)>,
    expr_b: Seq<u8>,
    vars_b: Seq<(Seq<u8>, Seq<u8>)>,
)
    requires
        values_are_numbers(vars_a),
        values_are_numbers(vars_b),
        task_text(expr_a, vars_a) == task_text(expr_b, vars_b),
    ensures
        expr_a == expr_b,
        vars_a == vars_b,
{
    let left = task_text(expr_a, vars_a);
    let right = task_text(expr_b, vars_b);
    let close = seq![CLOSE];
    let end_a = text_middle() + bindings_text(vars_a) + text_tail();
    let end_b = text_middle() + bindings_text(vars_b) + text_tail();
    assert(quoted(expr_a) + end_a =~= left.skip(text_head().len() as int));
    assert(quoted(expr_b) + end_b =~= right.skip(text_head().len() as int));
    lemma_quoted_delimits(expr_a, expr_b, end_a, end_b);
    assert(bindings_text(vars_a) + close + close =~= end_a.skip(text_middle().len() as int));
    assert(bindings_text(vars_b) + close + close =~= end_b.skip(text_middle().len() as int));
    lemma_bindings_delimit(vars_a, vars_b, close, close);
}

/// Two tasks that encode to the same payload are the same task: the same
/// expression and the same bindings, in the same order.
pub proof fn lemma_encoding_unambiguous(a: Task, b: Task)
    requires
        values_are_numbers(a.vars()),
        values_are_numbers(b.vars()),
        a.encoded() == b.encoded(),
    ensures
        a.expr() == b.expr(),
        a.vars() == b.vars(),
{
    lemma_task_text_injective(
        encode_utf8(a.expr()),
        a.vars(),
        encode_utf8(b.expr()),
        b.vars(),
    );
    vstd::utf8::encode_utf8_decode_utf8(a.expr());
    vstd::utf8::encode_utf8_decode_utf8(b.expr());
    assert(decode_utf8(encode_utf8(a.expr())) == a.expr());
}

} // verus!
