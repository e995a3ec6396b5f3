//! The order in which a task writes its bindings: by name, byte by byte.
//! Names in ascending order make the line of a task depend on its
//! bindings alone, not on the order in which they were added.

use vstd::prelude::*;

verus! {

/// Whether `a` comes before `b` in the dictionary of byte strings: at the
/// first place where they differ `a` has the smaller byte, or `a` ends
/// there and `b` goes on.
pub open spec fn lex_less(a: Seq<u8>, b: Seq<u8>) -> bool
    decreases a.len(),
{
    if b.len() == 0 {
        false
    } else if a.len() == 0 {
        true
    } else if a.first() != b.first() {
        a.first() < b.first()
    } else {
        lex_less(a.drop_first(), b.drop_first())
    }
}

/// No byte string comes before itself.
pub proof fn lemma_lex_irreflexive(a: Seq<u8>)
    ensures
        !lex_less(a, a),
    decreases a.len(),
{
    if a.len() > 0 {
        lemma_lex_irreflexive(a.drop_first());
    }
}

/// Coming before is transitive.
pub proof fn lemma_lex_transitive(a: Seq<u8>, b: Seq<u8>, c: Seq<u8>)
    requires
        lex_less(a, b),
        lex_less(b, c),
    ensures
        lex_less(a, c),
    decreases a.len(),
{
    if a.len() > 0 && a.first() == b.first() && b.first() == c.first() {
        lemma_lex_transitive(a.drop_first(), b.drop_first(), c.drop_first());
    }
}

/// Of two different byte strings one comes before the other.
pub proof fn lemma_lex_total(a: Seq<u8>, b: Seq<u8>)
    ensures
        a == b || lex_less(a, b) || lex_less(b, a),
    decreases a.len(),
{
    if a.len() == 0 && b.len() == 0 {
        assert(a =~= b);
    } else if a.len() > 0 && b.len() > 0 && a.first() == b.first() {
        lemma_lex_total(a.drop_first(), b.drop_first());
        if a.drop_first() == b.drop_first() {
            assert(a =~= seq![a.first()] + a.drop_first());
            assert(b =~= seq![b.first()] + b.drop_first());
        }
    }
}

/// Whether `a` comes before `b` in the dictionary of byte strings.
pub fn bytes_less(a: &[u8], b: &[u8]) -> (less: bool)
    ensures
        less == lex_less(a@, b@),
{
    let mut i: usize = 0;
    assert(a@.skip(0) =~= a@ && b@.skip(0) =~= b@);
    while i < a.len() && i < b.len()
        invariant
            i <= a@.len(),
            i <= b@.len(),
            lex_less(a@, b@) == lex_less(a@.skip(i as int), b@.skip(i as int)),
        decreases a@.len() - i,
    {
        if a[i] != b[i] {
            return a[i] < b[i];
        }
        assert(a@.skip(i as int).drop_first() =~= a@.skip(i + 1));
        assert(b@.skip(i as int).drop_first() =~= b@.skip(i + 1));
        i = i + 1;
    }
    i < b.len()
}

/// Whether the names of the bindings ascend: each comes before every
/// later one. Ascending names are distinct.
pub open spec fn names_ascend(vars: Seq<(Seq<u8>, Seq<u8>)>) -> bool {
    forall|i: int, j: int|
        0 <= i < j < vars.len() ==> lex_less((#[trigger] vars[i]).0, (#[trigger] vars[j]).0)
}

/// How many names at the start of the bindings come before `name`: the
/// place of `name` among ascending names.
pub open spec fn rank(vars: Seq<(Seq<u8>, Seq<u8>)>, name: Seq<u8>) -> int
    decreases vars.len(),
{
    if vars.len() > 0 && lex_less(vars.first().0, name) {
        1 + rank(vars.drop_first(), name)
    } else {
        0
    }
}

/// Whether two lists hold the same bindings, in whatever order.
pub open spec fn same_members(a: Seq<(Seq<u8>, Seq<u8>)>, b: Seq<(Seq<u8>, Seq<u8>)>) -> bool {
    forall|p: (Seq<u8>, Seq<u8>)| a.contains(p) <==> b.contains(p)
}

/// Ascending names are distinct.
pub proof fn lemma_ascending_names_differ(vars: Seq<(Seq<u8>, Seq<u8>)>, i: int, j: int)
    requires
        names_ascend(vars),
        0 <= i < vars.len(),
        0 <= j < vars.len(),
        i != j,
    ensures
        vars[i].0 != vars[j].0,
{
    lemma_lex_irreflexive(vars[i].0);
}

/// A binding put at the place of its name keeps the names ascending.
pub proof fn lemma_insert_keeps_ascending(
    vars: Seq<(Seq<u8>, Seq<u8>)>,
    at: int,
    added: (Seq<u8>, Seq<u8>),
)
    requires
        names_ascend(vars),
        0 <= at <= vars.len(),
        forall|k: int| 0 <= k < at ==> lex_less((#[trigger] vars[k]).0, added.0),
        at < vars.len() ==> lex_less(added.0, vars[at].0),
    ensures
        names_ascend(vars.insert(at, added)),
{
    let longer = vars.insert(at, added);
    assert forall|i: int, j: int| 0 <= i < j < longer.len() implies lex_less(
        (#[trigger] longer[i]).0,
        (#[trigger] longer[j]).0,
    ) by {
        if j == at {
            assert(longer[i] == vars[i]);
        } else if i == at {
            assert(longer[j] == vars[j - 1]);
            if j - 1 > at {
                assert(lex_less(vars[at].0, vars[j - 1].0));
                lemma_lex_transitive(added.0, vars[at].0, vars[j - 1].0);
            }
        } else {
            let a = if i < at {
                i
            } else {
                i - 1
            };
            let b = if j < at {
                j
            } else {
                j - 1
            };
            assert(longer[i] == vars[a] && longer[j] == vars[b]);
        }
    }
}

/// What a list holds after a binding was put in: what it held, and the
/// binding.
pub proof fn lemma_insert_members(
    vars: Seq<(Seq<u8>, Seq<u8>)>,
    at: int,
    added: (Seq<u8>, Seq<u8>),
)
    requires
        0 <= at <= vars.len(),
    ensures
        forall|p: (Seq<u8>, Seq<u8>)|
            vars.insert(at, added).contains(p) <==> vars.contains(p) || p == added,
{
    let longer = vars.insert(at, added);
    assert forall|p: (Seq<u8>, Seq<u8>)| longer.contains(p) <==> vars.contains(p) || p
        == added by {
        if longer.contains(p) {
            let k = choose|k: int| 0 <= k < longer.len() && longer[k] == p;
            if k < at {
                assert(vars[k] == p);
            } else if k > at {
                assert(vars[k - 1] == p);
            }
        }
        if vars.contains(p) {
            let k = choose|k: int| 0 <= k < vars.len() && vars[k] == p;
            if k < at {
                assert(longer[k] == p);
            } else {
                assert(longer[k + 1] == p);
            }
        }
        if p == added {
            assert(longer[at] == p);
        }
    }
}

/// Two lists with ascending names that hold the same bindings are the same
/// list: the order of ascending names is the only one.
pub proof fn lemma_ascending_lists_agree(a: Seq<(Seq<u8>, Seq<u8>)>, b: Seq<(Seq<u8>, Seq<u8>)>)
    requires
        names_ascend(a),
        names_ascend(b),
        same_members(a, b),
    ensures
        a == b,
    decreases a.len(),
{
    if a.len() == 0 {
        if b.len() > 0 {
            assert(b.contains(b[0]));
            assert(a.contains(b[0]));
        }
        assert(a =~= b);
    } else if b.len() == 0 {
        assert(a.contains(a[0]));
        assert(b.contains(a[0]));
    } else {
        assert(a.contains(a[0]) && b.contains(b[0]));
        let j = choose|j: int| 0 <= j < b.len() && b[j] == a[0];
        let i = choose|i: int| 0 <= i < a.len() && a[i] == b[0];
        if j > 0 && i > 0 {
            assert(lex_less(b[0].0, b[j].0));
            assert(lex_less(a[0].0, a[i].0));
            lemma_lex_transitive(a[0].0, b[0].0, a[0].0);
            lemma_lex_irreflexive(a[0].0);
        }
        assert(a[0] == b[0]);
        let rest_a = a.drop_first();
        let rest_b = b.drop_first();
        assert forall|p: (Seq<u8>, Seq<u8>)| rest_a.contains(p) <==> rest_b.contains(p) by {
            if rest_a.contains(p) {
                let k = choose|k: int| 0 <= k < rest_a.len() && rest_a[k] == p;
                assert(a[k + 1] == p);
                assert(a.contains(p));
                let m = choose|m: int| 0 <= m < b.len() && b[m] == p;
                if m == 0 {
                    lemma_ascending_names_differ(a, 0, k + 1);
                }
                assert(rest_b[m - 1] == p);
            }
            if rest_b.contains(p) {
                let k = choose|k: int| 0 <= k < rest_b.len() && rest_b[k] == p;
                assert(b[k + 1] == p);
                assert(b.contains(p));
                let m = choose|m: int| 0 <= m < a.len() && a[m] == p;
                if m == 0 {
                    lemma_ascending_names_differ(b, 0, k + 1);
                }
                assert(rest_a[m - 1] == p);
            }
        }
        assert(names_ascend(rest_a)) by {
            assert forall|x: int, y: int| 0 <= x < y < rest_a.len() implies lex_less(
                (#[trigger] rest_a[x]).0,
                (#[trigger] rest_a[y]).0,
            ) by {
                assert(lex_less(a[x + 1].0, a[y + 1].0));
            }
        }
        assert(names_ascend(rest_b)) by {
            assert forall|x: int, y: int| 0 <= x < y < rest_b.len() implies lex_less(
                (#[trigger] rest_b[x]).0,
                (#[trigger] rest_b[y]).0,
            ) by {
                assert(lex_less(b[x + 1].0, b[y + 1].0));
            }
        }
        lemma_ascending_lists_agree(rest_a, rest_b);
        assert(a =~= seq![a[0]] + rest_a);
        assert(b =~= seq![b[0]] + rest_b);
    }
}

} // verus!
