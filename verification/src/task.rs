//! Tasks and their canonical encoding: one line of text that names the
//! expression and every variable binding without ambiguity, whatever
//! characters the expression and the names hold.
//!
//! The line is a JSON object with the members `expr`, a string, and
//! `vars`, an object that maps each variable name to a number.

use crate::order::{
    bytes_less,
    lemma_ascending_lists_agree,
    lemma_ascending_names_differ,
    lemma_insert_keeps_ascending,
    lemma_lex_irreflexive,
    lemma_lex_total,
    lemma_lex_transitive,
    lex_less,
    names_ascend,
    rank,
    same_members,
};
use crate::protocol::{framed, payload_fault, Request, NEWLINE};
use crate::utf8_text::lemma_task_text_is_utf8;
use vstd::prelude::*;
use vstd::utf8::{encode_utf8, encode_utf8_valid_utf8, valid_utf8};

verus! {

/// The double quote that opens and closes a string.
pub const QUOTE: u8 = 34;

/// The backslash that starts an escape.
pub const BACKSLASH: u8 = 92;

/// The comma between two bindings.
pub const COMMA: u8 = 44;

/// The colon between a name and its value.
pub const COLON: u8 = 58;

/// The minus sign.
pub const MINUS: u8 = 45;

/// The plus sign.
pub const PLUS: u8 = 43;

/// The decimal point.
pub const POINT: u8 = 46;

/// The digit zero.
pub const ZERO: u8 = 48;

/// The digit nine.
pub const NINE: u8 = 57;

/// The brace that opens an object.
pub const OPEN: u8 = 123;

/// The brace that closes an object.
pub const CLOSE: u8 = 125;

/// The first byte that needs no escape for being a control character.
pub const SPACE: u8 = 32;

/// The lower-case hexadecimal digit for a value below sixteen.
pub open spec fn hex_digit(value: u8) -> u8 {
    if value < 10 {
        (ZERO + value) as u8
    } else {
        (87 + value) as u8
    }
}

/// How one byte of a text stands inside a quoted string: a quote and a
/// backslash behind a backslash, a control character as `\u00` and two
/// hexadecimal digits, every other byte as it is.
pub open spec fn escaped_byte(byte: u8) -> Seq<u8> {
    if byte == QUOTE || byte == BACKSLASH {
        seq![BACKSLASH, byte]
    } else if byte < SPACE {
        seq![BACKSLASH, 117u8, ZERO, ZERO, hex_digit(byte / 16), hex_digit(byte % 16)]
    } else {
        seq![byte]
    }
}

/// A text with every byte escaped.
pub open spec fn escaped(text: Seq<u8>) -> Seq<u8>
    decreases text.len(),
{
    if text.len() == 0 {
        Seq::empty()
    } else {
        escaped_byte(text.first()) + escaped(text.drop_first())
    }
}

/// A text as a quoted string.
pub open spec fn quoted(text: Seq<u8>) -> Seq<u8> {
    seq![QUOTE] + escaped(text) + seq![QUOTE]
}

/// Whether a byte is a decimal digit.
pub open spec fn is_digit(byte: u8) -> bool {
    ZERO <= byte <= NINE
}

/// How many decimal digits stand in a row from position `from` on.
pub open spec fn digit_run(text: Seq<u8>, from: int) -> int
    decreases text.len() - from,
{
    if 0 <= from < text.len() && is_digit(text[from]) {
        1 + digit_run(text, from + 1)
    } else {
        0
    }
}

/// Where the integer part of a number that starts at `from` ends: behind
/// an optional minus sign and a run of digits that does not start with a
/// needless zero. `None` when no integer part stands there.
pub open spec fn integer_end(text: Seq<u8>, from: int) -> Option<int> {
    let start = if 0 <= from < text.len() && text[from] == MINUS {
        from + 1
    } else {
        from
    };
    let run = digit_run(text, start);
    if run == 0 || (run > 1 && text[start] == ZERO) {
        None
    } else {
        Some(start + run)
    }
}

/// Where an optional fraction that starts at `from` ends. `None` when a
/// point stands there with no digit behind it.
pub open spec fn fraction_end(text: Seq<u8>, from: int) -> Option<int> {
    if 0 <= from < text.len() && text[from] == POINT {
        let run = digit_run(text, from + 1);
        if run == 0 {
            None
        } else {
            Some(from + 1 + run)
        }
    } else {
        Some(from)
    }
}

/// Where an optional exponent that starts at `from` ends. `None` when an
/// exponent mark stands there with no digit behind it and its sign.
pub open spec fn exponent_end(text: Seq<u8>, from: int) -> Option<int> {
    if 0 <= from < text.len() && (text[from] == 101 || text[from] == 69) {
        let start = if from + 1 < text.len() && (text[from + 1] == PLUS || text[from + 1] == MINUS) {
            from + 2
        } else {
            from + 1
        };
        let run = digit_run(text, start);
        if run == 0 {
            None
        } else {
            Some(start + run)
        }
    } else {
        Some(from)
    }
}

/// Whether a text is a JSON number: an integer part, then an optional
/// fraction, then an optional exponent, and nothing else.
pub open spec fn is_number(text: Seq<u8>) -> bool {
    match integer_end(text, 0) {
        None => false,
        Some(a) => match fraction_end(text, a) {
            None => false,
            Some(b) => match exponent_end(text, b) {
                None => false,
                Some(c) => c == text.len(),
            },
        },
    }
}

/// A numeric value, held as the JSON number that writes it.
pub struct Number {
    text: Vec<u8>,
}

impl View for Number {
    type V = Seq<u8>;

    closed spec fn view(&self) -> Seq<u8> {
        self.text@
    }
}

fn count_digits(text: &[u8], from: usize) -> (run: usize)
    requires
        from <= text@.len(),
    ensures
        run == digit_run(text@, from as int),
        from + run <= text@.len(),
{
    let mut at: usize = from;
    while at < text.len() && ZERO <= text[at] && text[at] <= NINE
        invariant
            from <= at <= text@.len(),
            digit_run(text@, from as int) == (at - from) + digit_run(text@, at as int),
        decreases text@.len() - at,
    {
        at = at + 1;
    }
    at - from
}

/// Finds the end of the integer part at the start of a text.
fn scan_integer(text: &[u8]) -> (end: Option<usize>)
    ensures
        match end {
            Some(at) => integer_end(text@, 0) == Some(at as int) && at <= text@.len(),
            None => integer_end(text@, 0) is None,
        },
{
    let start: usize = if text.len() > 0 && text[0] == MINUS {
        1
    } else {
        0
    };
    let run = count_digits(text, start);
    if run == 0 || (run > 1 && text[start] == ZERO) {
        None
    } else {
        Some(start + run)
    }
}

/// Finds the end of the optional fraction that starts at `from`.
fn scan_fraction(text: &[u8], from: usize) -> (end: Option<usize>)
    requires
        from <= text@.len(),
    ensures
        match end {
            Some(at) => fraction_end(text@, from as int) == Some(at as int) && at <= text@.len(),
            None => fraction_end(text@, from as int) is None,
        },
{
    if from < text.len() && text[from] == POINT {
        let run = count_digits(text, from + 1);
        if run == 0 {
            None
        } else {
            Some(from + 1 + run)
        }
    } else {
        Some(from)
    }
}

/// Finds the end of the optional exponent that starts at `from`.
fn scan_exponent(text: &[u8], from: usize) -> (end: Option<usize>)
    requires
        from <= text@.len(),
    ensures
        match end {
            Some(at) => exponent_end(text@, from as int) == Some(at as int) && at <= text@.len(),
            None => exponent_end(text@, from as int) is None,
        },
{
    if from < text.len() && (text[from] == 101 || text[from] == 69) {
        let start = if from + 1 < text.len() && (text[from + 1] == PLUS || text[from + 1] == MINUS) {
            from + 2
        } else {
            from + 1
        };
        let run = count_digits(text, start);
        if run == 0 {
            None
        } else {
            Some(start + run)
        }
    } else {
        Some(from)
    }
}

impl Number {
    #[verifier::type_invariant]
    spec fn well_formed(self) -> bool {
        is_number(self.text@)
    }

    /// Reads a number. Gives `None` for a text that is no JSON number.
    pub fn parse(text: &str) -> (r: Option<Number>)
        ensures
            r is Some <==> is_number(encode_utf8(text@)),
            r matches Some(number) ==> number@ == encode_utf8(text@),
    {
        let bytes = text.as_bytes();
        let a = match scan_integer(bytes) {
            Some(a) => a,
            None => {
                return None;
            },
        };
        let b = match scan_fraction(bytes, a) {
            Some(b) => b,
            None => {
                return None;
            },
        };
        let c = match scan_exponent(bytes, b) {
            Some(c) => c,
            None => {
                return None;
            },
        };
        if c != bytes.len() {
            return None;
        }
        let mut copy: Vec<u8> = Vec::new();
        push_all(&mut copy, bytes);
        assert(copy@ =~= bytes@);
        Some(Number { text: copy })
    }

    /// The number as it is written.
    pub fn bytes(&self) -> (text: &Vec<u8>)
        ensures
            text@ == self@,
            is_number(text@),
    {
        proof {
            use_type_invariant(self);
        }
        &self.text
    }
}

/// One binding as it stands in the line: the quoted name, a colon, the
/// number.
pub open spec fn binding_text(name: Seq<u8>, value: Seq<u8>) -> Seq<u8> {
    quoted(name) + seq![COLON] + value
}

/// The bindings as they stand in the line, in their order, with a comma
/// between two of them.
pub open spec fn bindings_text(vars: Seq<(Seq<u8>, Seq<u8>)>) -> Seq<u8>
    decreases vars.len(),
{
    if vars.len() == 0 {
        Seq::empty()
    } else if vars.len() == 1 {
        binding_text(vars.first().0, vars.first().1)
    } else {
        binding_text(vars.first().0, vars.first().1) + seq![COMMA] + bindings_text(
            vars.drop_first(),
        )
    }
}

/// The bytes of `{"expr":`.
pub open spec fn text_head() -> Seq<u8> {
    seq![OPEN, QUOTE, 101u8, 120u8, 112u8, 114u8, QUOTE, COLON]
}

/// The bytes of `,"vars":{`.
pub open spec fn text_middle() -> Seq<u8> {
    seq![COMMA, QUOTE, 118u8, 97u8, 114u8, 115u8, QUOTE, COLON, OPEN]
}

/// The bytes of `}}`.
pub open spec fn text_tail() -> Seq<u8> {
    seq![CLOSE, CLOSE]
}

/// The text of a task: `{"expr":` and the quoted expression, `,"vars":{`
/// and the bindings, `}}`.
pub open spec fn task_text(expr: Seq<u8>, vars: Seq<(Seq<u8>, Seq<u8>)>) -> Seq<u8> {
    text_head() + quoted(expr) + text_middle() + bindings_text(vars) + text_tail()
}

/// Whether every value is written as a JSON number.
pub open spec fn values_are_numbers(vars: Seq<(Seq<u8>, Seq<u8>)>) -> bool {
    forall|i: int| 0 <= i < vars.len() ==> is_number((#[trigger] vars[i]).1)
}

/// One variable of a task: its name and its value.
pub struct Binding {
    name: String,
    value: Number,
}

impl Binding {
    /// The name and the written value, as bytes.
    pub closed spec fn view_bytes(self) -> (Seq<u8>, Seq<u8>) {
        (encode_utf8(self.name@), self.value@)
    }
}

/// Why a binding was not added to a task.
#[derive(Clone, Copy, Debug, PartialEq, Eq, Structural)]
pub enum TaskError {
    /// The task binds this name already.
    DuplicateVariable,
}

/// An expression and the values of its variables. A task binds each name
/// once and holds its bindings by ascending name, so that the same
/// bindings always give the same line.
pub struct Task {
    expr: String,
    vars: Vec<Binding>,
}

/// The bindings as bytes: each name and its written value.
pub closed spec fn bindings_view(vars: Seq<Binding>) -> Seq<(Seq<u8>, Seq<u8>)> {
    Seq::new(vars.len(), |i: int| vars[i].view_bytes())
}

impl Task {
    #[verifier::type_invariant]
    spec fn ordered(self) -> bool {
        names_ascend(bindings_view(self.vars@)) && values_are_numbers(bindings_view(self.vars@))
    }

    /// The expression.
    pub closed spec fn expr(&self) -> Seq<char> {
        self.expr@
    }

    /// The bindings by ascending name, each as the bytes of its name and
    /// of its written value.
    pub closed spec fn vars(&self) -> Seq<(Seq<u8>, Seq<u8>)> {
        bindings_view(self.vars@)
    }

    /// What holds of every task: its names ascend, so each is bound once,
    /// and every value is written as a JSON number.
    pub open spec fn canonical(&self) -> bool {
        names_ascend(self.vars()) && values_are_numbers(self.vars())
    }

    /// Shows that the task is canonical, as every task is.
    pub fn is_canonical(&self) -> (yes: bool)
        ensures
            yes,
            self.canonical(),
    {
        proof {
            use_type_invariant(self);
        }
        true
    }

    /// Whether the task binds this name.
    pub open spec fn binds(&self, name: Seq<u8>) -> bool {
        exists|i: int| 0 <= i < self.vars().len() && (#[trigger] self.vars()[i]).0 == name
    }

    /// The payload that encodes the task.
    pub open spec fn encoded(&self) -> Seq<u8> {
        task_text(encode_utf8(self.expr()), self.vars())
    }

    /// A task with no variable.
    pub fn new(expr: String) -> (task: Task)
        ensures
            task.expr() == expr@,
            task.vars().len() == 0,
            task.canonical(),
    {
        Task { expr, vars: Vec::new() }
    }

    /// Whether the task binds this name.
    pub fn has_variable(&self, name: &str) -> (b: bool)
        ensures
            b == self.binds(encode_utf8(name@)),
    {
        let wanted = name.as_bytes();
        let mut i: usize = 0;
        while i < self.vars.len()
            invariant
                i <= self.vars@.len(),
                wanted@ == encode_utf8(name@),
                forall|k: int| 0 <= k < i ==> (#[trigger] self.vars()[k]).0 != wanted@,
            decreases self.vars@.len() - i,
        {
            if same_bytes(self.vars[i].name.as_str().as_bytes(), wanted) {
                assert(self.vars()[i as int].0 == wanted@);
                return true;
            }
            i = i + 1;
        }
        false
    }

    /// Finds the place of a name among the ascending names: the number of
    /// names that come before it.
    fn place_of(&self, name: &[u8]) -> (at: usize)
        ensures
            at == rank(self.vars(), name@),
            at <= self.vars().len(),
            forall|k: int| 0 <= k < at ==> lex_less((#[trigger] self.vars()[k]).0, name@),
            at < self.vars().len() ==> !lex_less(self.vars()[at as int].0, name@),
    {
        let mut at: usize = 0;
        let mut searching = true;
        assert(self.vars().skip(0) =~= self.vars());
        while searching
            invariant
                at <= self.vars@.len(),
                self.vars().len() == self.vars@.len(),
                rank(self.vars(), name@) == at + rank(self.vars().skip(at as int), name@),
                forall|k: int| 0 <= k < at ==> lex_less((#[trigger] self.vars()[k]).0, name@),
                !searching ==> rank(self.vars().skip(at as int), name@) == 0 && (at
                    < self.vars().len() ==> !lex_less(self.vars()[at as int].0, name@)),
            decreases (if searching { 1int } else { 0int }) + self.vars@.len() - at,
        {
            if at < self.vars.len() && bytes_less(self.vars[at].name.as_str().as_bytes(), name) {
                assert(self.vars().skip(at as int).first() == self.vars()[at as int]);
                assert(self.vars().skip(at as int).drop_first() =~= self.vars().skip(at + 1));
                at = at + 1;
            } else {
                if at < self.vars.len() {
                    assert(self.vars().skip(at as int).first() == self.vars()[at as int]);
                }
                searching = false;
            }
        }
        at
    }

    /// Adds a binding at the place of its name. A task binds each name
    /// once: a second binding of a name is turned away, and the task stays
    /// as it is.
    pub fn bind(&mut self, name: String, value: Number) -> (r: Result<(), TaskError>)
        ensures
            final(self).expr() == old(self).expr(),
            final(self).canonical(),
            match r {
                Ok(()) => !old(self).binds(encode_utf8(name@)) && final(self).vars() == old(
                    self,
                ).vars().insert(
                    rank(old(self).vars(), encode_utf8(name@)),
                    (encode_utf8(name@), value@),
                ),
                Err(e) => old(self).binds(encode_utf8(name@)) && e == TaskError::DuplicateVariable
                    && final(self).vars() == old(self).vars(),
            },
    {
        proof {
            use_type_invariant(&*self);
            use_type_invariant(&value);
        }
        let ghost before = self.vars();
        let ghost added = (encode_utf8(name@), value@);
        let at = self.place_of(name.as_str().as_bytes());
        if at < self.vars.len() && same_bytes(
            self.vars[at].name.as_str().as_bytes(),
            name.as_str().as_bytes(),
        ) {
            assert(before[at as int].0 == added.0);
            return Err(TaskError::DuplicateVariable);
        }
        proof {
            if at < before.len() {
                lemma_lex_total(before[at as int].0, added.0);
            }
            assert forall|k: int| 0 <= k < before.len() implies (#[trigger] before[k]).0
                != added.0 by {
                lemma_lex_irreflexive(added.0);
                if k > at {
                    assert(lex_less(before[at as int].0, before[k].0));
                    lemma_lex_transitive(added.0, before[at as int].0, before[k].0);
                }
            }
            lemma_insert_keeps_ascending(before, at as int, added);
            assert(values_are_numbers(before.insert(at as int, added))) by {
                let longer = before.insert(at as int, added);
                assert forall|i: int| 0 <= i < longer.len() implies is_number(
                    (#[trigger] longer[i]).1,
                ) by {
                    if i < at {
                        assert(longer[i] == before[i]);
                    } else if i > at {
                        assert(longer[i] == before[i - 1]);
                    }
                }
            }
        }
        let mut vars: Vec<Binding> = Vec::new();
        std::mem::swap(&mut vars, &mut self.vars);
        vars.insert(at, Binding { name, value });
        assert(bindings_view(vars@) =~= before.insert(at as int, added));
        self.vars = vars;
        Ok(())
    }

    /// Encodes the task as the payload of one request line.
    pub fn encode(&self) -> (payload: Vec<u8>)
        ensures
            payload@ == self.encoded(),
            self.canonical(),
    {
        proof {
            use_type_invariant(self);
        }
        let mut out: Vec<u8> = Vec::new();
        out.push(OPEN);
        out.push(QUOTE);
        out.push(101);
        out.push(120);
        out.push(112);
        out.push(114);
        out.push(QUOTE);
        out.push(COLON);
        assert(out@ =~= text_head());
        push_quoted(&mut out, self.expr.as_str().as_bytes());
        out.push(COMMA);
        out.push(QUOTE);
        out.push(118);
        out.push(97);
        out.push(114);
        out.push(115);
        out.push(QUOTE);
        out.push(COLON);
        out.push(OPEN);
        let ghost front = text_head() + quoted(encode_utf8(self.expr())) + text_middle();
        assert(out@ =~= front);
        let mut i: usize = 0;
        assert(self.vars().take(0) =~= Seq::empty());
        while i < self.vars.len()
            invariant
                i <= self.vars@.len(),
                self.vars().len() == self.vars@.len(),
                out@ == front + bindings_text(self.vars().take(i as int)),
            decreases self.vars@.len() - i,
        {
            let ghost sofar = self.vars().take(i as int);
            let ghost this = self.vars()[i as int];
            let ghost start = out@;
            if i > 0 {
                out.push(COMMA);
            }
            push_quoted(&mut out, self.vars[i].name.as_str().as_bytes());
            out.push(COLON);
            push_all(&mut out, self.vars[i].value.bytes().as_slice());
            proof {
                lemma_bindings_push(sofar, this);
                assert(self.vars().take(i + 1) =~= sofar.push(this));
                assert(out@ =~= start + (if i > 0 {
                    seq![COMMA]
                } else {
                    Seq::empty()
                }) + binding_text(this.0, this.1));
            }
            i = i + 1;
        }
        assert(self.vars().take(self.vars().len() as int) =~= self.vars());
        out.push(CLOSE);
        out.push(CLOSE);
        assert(out@ =~= self.encoded());
        out
    }

    /// Frames the task as one request line.
    pub fn to_request(&self) -> (request: Request)
        ensures
            request@ == framed(self.encoded()),
            self.canonical(),
    {
        let payload = self.encode();
        proof {
            lemma_encoded_is_text(*self);
        }
        Request::from_checked(payload)
    }
}

/// The names of a task are text: each is valid UTF-8.
pub proof fn lemma_names_are_text(task: Task)
    ensures
        forall|i: int| 0 <= i < task.vars().len() ==> valid_utf8((#[trigger] task.vars()[i]).0),
{
    assert forall|i: int| 0 <= i < task.vars().len() implies valid_utf8(
        (#[trigger] task.vars()[i]).0,
    ) by {
        encode_utf8_valid_utf8(task.vars@[i].name@);
    }
}

/// The line of a task depends on its expression and its bindings alone:
/// two tasks with the same expression that hold the same bindings, added
/// in whatever order, have the same bindings in the same places and encode
/// to the same payload.
pub proof fn lemma_same_bindings_same_line(a: Task, b: Task)
    requires
        a.canonical(),
        b.canonical(),
        a.expr() == b.expr(),
        same_members(a.vars(), b.vars()),
    ensures
        a.vars() == b.vars(),
        a.encoded() == b.encoded(),
{
    lemma_ascending_lists_agree(a.vars(), b.vars());
}

/// A task binds each name once.
pub proof fn lemma_names_are_distinct(task: Task, i: int, j: int)
    requires
        task.canonical(),
        0 <= i < task.vars().len(),
        0 <= j < task.vars().len(),
        i != j,
    ensures
        task.vars()[i].0 != task.vars()[j].0,
{
    lemma_ascending_names_differ(task.vars(), i, j);
}

/// The payload of a task is one line of UTF-8.
pub proof fn lemma_encoded_is_text(task: Task)
    requires
        values_are_numbers(task.vars()),
    ensures
        payload_fault(task.encoded()) is None,
{
    lemma_task_text_one_line(encode_utf8(task.expr()), task.vars());
    lemma_names_are_text(task);
    encode_utf8_valid_utf8(task.expr());
    lemma_task_text_is_utf8(encode_utf8(task.expr()), task.vars());
}

/// Whether two byte strings are the same.
fn same_bytes(a: &[u8], b: &[u8]) -> (same: bool)
    ensures
        same == (a@ == b@),
{
    if a.len() != b.len() {
        return false;
    }
    let mut i: usize = 0;
    while i < a.len()
        invariant
            i <= a@.len(),
            a@.len() == b@.len(),
            forall|k: int| 0 <= k < i ==> a@[k] == b@[k],
        decreases a@.len() - i,
    {
        if a[i] != b[i] {
            return false;
        }
        i = i + 1;
    }
    assert(a@ =~= b@);
    true
}

/// Appends a text as a quoted string.
fn push_quoted(out: &mut Vec<u8>, text: &[u8])
    ensures
        final(out)@ == old(out)@ + quoted(text@),
{
    out.push(QUOTE);
    let mut i: usize = 0;
    assert(text@.take(0) =~= Seq::empty());
    while i < text.len()
        invariant
            i <= text@.len(),
            out@ == old(out)@ + seq![QUOTE] + escaped(text@.take(i as int)),
        decreases text@.len() - i,
    {
        let byte = text[i];
        let ghost start = out@;
        if byte == QUOTE || byte == BACKSLASH {
            out.push(BACKSLASH);
            out.push(byte);
        } else if byte < SPACE {
            out.push(BACKSLASH);
            out.push(117);
            out.push(ZERO);
            out.push(ZERO);
            out.push(hex_of(byte / 16));
            out.push(hex_of(byte % 16));
        } else {
            out.push(byte);
        }
        proof {
            assert(out@ =~= start + escaped_byte(byte));
            lemma_escaped_push(text@.take(i as int), byte);
            assert(text@.take(i + 1) =~= text@.take(i as int).push(byte));
        }
        i = i + 1;
    }
    assert(text@.take(text@.len() as int) =~= text@);
    out.push(QUOTE);
}

/// The lower-case hexadecimal digit for a value below sixteen.
fn hex_of(value: u8) -> (digit: u8)
    requires
        value < 16,
    ensures
        digit == hex_digit(value),
{
    if value < 10 {
        ZERO + value
    } else {
        87 + value
    }
}

/// Escaping goes byte by byte: the escape of a text with one more byte is
/// the escape of the text followed by the escape of the byte.
pub proof fn lemma_escaped_push(text: Seq<u8>, byte: u8)
    ensures
        escaped(text.push(byte)) == escaped(text) + escaped_byte(byte),
    decreases text.len(),
{
    let longer = text.push(byte);
    if text.len() == 0 {
        assert(longer.drop_first() =~= Seq::<u8>::empty());
        assert(longer.first() == byte);
        assert(escaped(Seq::<u8>::empty()) =~= Seq::<u8>::empty());
        assert(escaped(longer) =~= escaped_byte(byte));
        assert(escaped(text) + escaped_byte(byte) =~= escaped_byte(byte));
    } else {
        assert(longer.drop_first() =~= text.drop_first().push(byte));
        lemma_escaped_push(text.drop_first(), byte);
        assert(escaped(longer) =~= escaped(text) + escaped_byte(byte));
    }
}

/// The bindings with one more binding are the bindings, a comma unless
/// there was none before, and the new binding.
pub proof fn lemma_bindings_push(vars: Seq<(Seq<u8>, Seq<u8>)>, last: (Seq<u8>, Seq<u8>))
    ensures
        bindings_text(vars.push(last)) == bindings_text(vars) + (if vars.len() > 0 {
            seq![COMMA]
        } else {
            Seq::empty()
        }) + binding_text(last.0, last.1),
    decreases vars.len(),
{
    let longer = vars.push(last);
    if vars.len() == 0 {
        assert(bindings_text(longer) =~= bindings_text(vars) + Seq::<u8>::empty() + binding_text(
            last.0,
            last.1,
        ));
    } else {
        assert(longer.drop_first() =~= vars.drop_first().push(last));
        lemma_bindings_push(vars.drop_first(), last);
        if vars.len() == 1 {
            assert(vars.drop_first() =~= Seq::<(Seq<u8>, Seq<u8>)>::empty());
        }
        assert(bindings_text(longer) =~= bindings_text(vars) + seq![COMMA] + binding_text(
            last.0,
            last.1,
        ));
    }
}

/// A quoted string holds no control character, so no newline.
pub proof fn lemma_quoted_printable(text: Seq<u8>)
    ensures
        forall|i: int| 0 <= i < quoted(text).len() ==> (#[trigger] quoted(text)[i]) >= SPACE,
{
    lemma_escaped_printable(text);
}

/// An escaped text holds no control character.
pub proof fn lemma_escaped_printable(text: Seq<u8>)
    ensures
        forall|i: int| 0 <= i < escaped(text).len() ==> (#[trigger] escaped(text)[i]) >= SPACE,
    decreases text.len(),
{
    if text.len() > 0 {
        lemma_escaped_printable(text.drop_first());
        let head = escaped_byte(text.first());
        let rest = escaped(text.drop_first());
        assert forall|i: int| 0 <= i < head.len() implies (#[trigger] head[i]) >= SPACE by {
            let byte = text.first();
            if byte < SPACE {
                assert(hex_digit(byte / 16) >= ZERO);
                assert(hex_digit(byte % 16) >= ZERO);
            }
        }
        assert forall|i: int| 0 <= i < escaped(text).len() implies (#[trigger] escaped(text)[i])
            >= SPACE by {
            if i < head.len() {
                assert(escaped(text)[i] == head[i]);
            } else {
                assert(escaped(text)[i] == rest[i - head.len()]);
            }
        }
    }
}

/// A JSON number holds no control character.
pub proof fn lemma_number_printable(text: Seq<u8>)
    requires
        is_number(text),
    ensures
        forall|i: int| 0 <= i < text.len() ==> (#[trigger] text[i]) >= SPACE,
{
    assert forall|i: int| 0 <= i < text.len() implies (#[trigger] text[i]) >= SPACE by {
        lemma_number_alphabet(text, i);
    }
}

/// Whether a byte may stand in a JSON number.
pub open spec fn is_number_byte(byte: u8) -> bool {
    is_digit(byte) || byte == MINUS || byte == PLUS || byte == POINT || byte == 101 || byte == 69
}

/// Every byte of a run of digits is a digit.
pub proof fn lemma_digit_run(text: Seq<u8>, from: int, i: int)
    requires
        0 <= from <= i < from + digit_run(text, from),
    ensures
        i < text.len(),
        is_digit(text[i]),
    decreases text.len() - from,
{
    if i > from {
        lemma_digit_run(text, from + 1, i);
    }
}

/// Every byte of a JSON number is a digit, a sign, a point or an exponent
/// mark.
pub proof fn lemma_number_alphabet(text: Seq<u8>, i: int)
    requires
        is_number(text),
        0 <= i < text.len(),
    ensures
        is_number_byte(text[i]),
{
    let start = if 0 < text.len() && text[0] == MINUS {
        1int
    } else {
        0int
    };
    let a = integer_end(text, 0)->0;
    let b = fraction_end(text, a)->0;
    if i < start {
    } else if i < a {
        lemma_digit_run(text, start, i);
    } else if i < b {
        if i > a {
            lemma_digit_run(text, a + 1, i);
        }
    } else {
        let from = if b + 1 < text.len() && (text[b + 1] == PLUS || text[b + 1] == MINUS) {
            b + 2
        } else {
            b + 1
        };
        if i >= from {
            lemma_digit_run(text, from, i);
        }
    }
}

/// The text of the bindings holds no control character.
pub proof fn lemma_bindings_printable(vars: Seq<(Seq<u8>, Seq<u8>)>)
    requires
        forall|i: int| 0 <= i < vars.len() ==> is_number((#[trigger] vars[i]).1),
    ensures
        forall|i: int|
            0 <= i < bindings_text(vars).len() ==> (#[trigger] bindings_text(vars)[i]) >= SPACE,
    decreases vars.len(),
{
    if vars.len() > 0 {
        lemma_quoted_printable(vars.first().0);
        assert(is_number(vars[0].1));
        lemma_number_printable(vars.first().1);
        if vars.len() > 1 {
            assert forall|i: int| 0 <= i < vars.drop_first().len() implies is_number(
                (#[trigger] vars.drop_first()[i]).1,
            ) by {
                assert(is_number(vars[i + 1].1));
            }
            lemma_bindings_printable(vars.drop_first());
        }
        let name = quoted(vars.first().0);
        let value = vars.first().1;
        let one = binding_text(vars.first().0, vars.first().1);
        assert forall|i: int| 0 <= i < one.len() implies (#[trigger] one[i]) >= SPACE by {
            if i < name.len() {
                assert(one[i] == name[i]);
            } else if i > name.len() {
                assert(one[i] == value[i - name.len() - 1]);
            }
        }
        let all = bindings_text(vars);
        assert forall|i: int| 0 <= i < all.len() implies (#[trigger] all[i]) >= SPACE by {
            if i < one.len() {
                assert(all[i] == one[i]);
            } else if vars.len() > 1 && i > one.len() {
                assert(all[i] == bindings_text(vars.drop_first())[i - one.len() - 1]);
            }
        }
    }
}

/// The text of a task is one line: it holds no newline, whatever the
/// expression and the names hold.
pub proof fn lemma_task_text_one_line(expr: Seq<u8>, vars: Seq<(Seq<u8>, Seq<u8>)>)
    requires
        forall|i: int| 0 <= i < vars.len() ==> is_number((#[trigger] vars[i]).1),
    ensures
        !task_text(expr, vars).contains(NEWLINE),
{
    lemma_quoted_printable(expr);
    lemma_bindings_printable(vars);
    let text = task_text(expr, vars);
    assert forall|i: int| 0 <= i < text.len() implies text[i] >= SPACE by {
        let a = text_head().len();
        let b = a + quoted(expr).len();
        let c = b + text_middle().len();
        let d = c + bindings_text(vars).len();
        if i < a {
        } else if i < b {
            assert(text[i] == quoted(expr)[i - a]);
        } else if i < c {
        } else if i < d {
            assert(text[i] == bindings_text(vars)[i - c]);
        } else {
        }
    }
}

/// Appends bytes to a buffer.
fn push_all(out: &mut Vec<u8>, bytes: &[u8])
    ensures
        final(out)@ == old(out)@ + bytes@,
{
    let mut i: usize = 0;
    while i < bytes.len()
        invariant
            i <= bytes@.len(),
            out@ == old(out)@ + bytes@.take(i as int),
        decreases bytes@.len() - i,
    {
        out.push(bytes[i]);
        assert(out@ =~= old(out)@ + bytes@.take(i + 1));
        i = i + 1;
    }
    assert(bytes@.take(bytes@.len() as int) =~= bytes@);
}

} // verus!
