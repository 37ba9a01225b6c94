//! The names of the procedures tell the procedures apart.

use super::surface::lifecycle_func_name;
use super::LifecycleFunc;
use crate::mir::SurfaceIdView;
use crate::text::{decimal, digit, is_digit, lemma_decimal_digits, lemma_decimal_injective};
use vstd::prelude::*;

verus! {

/// What the word for a part of the life of a surface is made of: it has
/// no dot, and each word has a length of its own.
proof fn lemma_lifecycle_text(lifecycle: LifecycleFunc)
    ensures
        forall|i: int| 0 <= i < lifecycle.text().len() ==> lifecycle.text()[i] != '.',
        lifecycle.text().len() == match lifecycle {
            LifecycleFunc::Construct => 9nat,
            LifecycleFunc::Update => 6nat,
            LifecycleFunc::Destruct => 8nat,
        },
{
    reveal_strlit("construct");
    reveal_strlit("update");
    reveal_strlit("destruct");
}

/// A digit is no dot.
proof fn lemma_digit_no_dot(c: char)
    requires
        is_digit(c),
    ensures
        c != '.',
{
}

/// Texts that are the same after the same start are the same.
proof fn lemma_same_rest(start: Seq<char>, a: Seq<char>, b: Seq<char>)
    requires
        start + a == start + b,
    ensures
        a == b,
{
    assert(a =~= (start + a).subrange(start.len() as int, (start + a).len() as int));
    assert(b =~= (start + b).subrange(start.len() as int, (start + b).len() as int));
}

/// Texts that are the same before the same end are the same.
proof fn lemma_same_start(a: Seq<char>, b: Seq<char>, end: Seq<char>)
    requires
        a + end == b + end,
    ensures
        a == b,
{
    assert((a + end).len() == (b + end).len());
    assert(a =~= (a + end).subrange(0, a.len() as int));
    assert(b =~= (b + end).subrange(0, b.len() as int));
}

/// The surfaces and the parts of their lives can be told from the names
/// of the procedures: two procedures with the same name are for the same
/// identity, the same name of the surface and the same part of its life.
pub proof fn law_names_tell_apart(
    a: SurfaceIdView,
    for_a: LifecycleFunc,
    b: SurfaceIdView,
    for_b: LifecycleFunc,
)
    requires
        lifecycle_func_name(a, for_a) == lifecycle_func_name(b, for_b),
    ensures
        a.id == b.id,
        a.debug_name == b.debug_name,
        for_a == for_b,
{
    reveal_strlit(".");
    let dot = "."@;
    let start = "maxim.surface."@;
    let number_a = decimal(a.id as nat);
    let number_b = decimal(b.id as nat);
    let word_a = for_a.text();
    let word_b = for_b.text();
    let rest_a = number_a + dot + a.debug_name + dot + word_a;
    let rest_b = number_b + dot + b.debug_name + dot + word_b;
    assert(lifecycle_func_name(a, for_a) =~= start + rest_a);
    assert(lifecycle_func_name(b, for_b) =~= start + rest_b);
    lemma_same_rest(start, rest_a, rest_b);
    lemma_decimal_digits(a.id as nat);
    lemma_decimal_digits(b.id as nat);

    // The number ends at the first dot.
    assert(number_a.len() == number_b.len()) by {
        if number_a.len() < number_b.len() {
            assert(rest_a[number_a.len() as int] == '.');
            assert(rest_b[number_a.len() as int] == number_b[number_a.len() as int]);
            lemma_digit_no_dot(number_b[number_a.len() as int]);
        }
        if number_b.len() < number_a.len() {
            assert(rest_b[number_b.len() as int] == '.');
            assert(rest_a[number_b.len() as int] == number_a[number_b.len() as int]);
            lemma_digit_no_dot(number_a[number_b.len() as int]);
        }
    }
    assert(number_a =~= number_b) by {
        assert forall|i: int| 0 <= i < number_a.len() implies number_a[i] == number_b[i] by {
            assert(rest_a[i] == number_a[i]);
            assert(rest_b[i] == number_b[i]);
        }
    }
    lemma_decimal_injective(a.id as nat, b.id as nat);

    let tail_a = a.debug_name + dot + word_a;
    let tail_b = b.debug_name + dot + word_b;
    assert(rest_a =~= (number_a + dot) + tail_a);
    assert(rest_b =~= (number_a + dot) + tail_b);
    lemma_same_rest(number_a + dot, tail_a, tail_b);

    // The word starts after the last dot.
    lemma_lifecycle_text(for_a);
    lemma_lifecycle_text(for_b);
    assert(word_a.len() == word_b.len()) by {
        let length = tail_a.len() as int;
        if word_a.len() < word_b.len() {
            let at = length - word_a.len() - 1;
            assert(tail_a[at] == '.');
            assert(tail_b[at] == word_b[at - (length - word_b.len())]);
        }
        if word_b.len() < word_a.len() {
            let at = length - word_b.len() - 1;
            assert(tail_b[at] == '.');
            assert(tail_a[at] == word_a[at - (length - word_a.len())]);
        }
    }
    assert(tail_a =~= a.debug_name + (dot + word_a));
    assert(tail_b =~= b.debug_name + (dot + word_b));
    assert(dot + word_a =~= dot + word_b) by {
        assert forall|i: int| 0 <= i < (dot + word_a).len() implies (dot + word_a)[i] == (dot
            + word_b)[i] by {
            assert(tail_a[a.debug_name.len() + i] == (dot + word_a)[i]);
            assert(tail_b[b.debug_name.len() + i] == (dot + word_b)[i]);
        }
    }
    lemma_same_start(a.debug_name, b.debug_name, dot + word_a);
}

} // verus!
