use vstd::prelude::*;

use crate::parser::Alignment;
use crate::token::Token;

verus! {

/// The indices of the tokens that each section of the bar draws, in order.
pub struct Sections {
    pub left: Vec<usize>,
    pub center: Vec<usize>,
    pub right: Vec<usize>,
}

/// The section that the token at `i` falls into: the one that the last
/// alignment before it selects, or the left one.
pub open spec fn alignment_before<'a>(tokens: Seq<Token<'a>>, i: int) -> Alignment
    decreases i,
{
    if i <= 0 {
        Alignment::Left
    } else {
        match tokens[i - 1] {
            Token::Alignment(a) => a,
            _ => alignment_before(tokens, i - 1),
        }
    }
}

/// The indices below `n` of the tokens that the section `a` draws: those that
/// are not alignments and fall into `a`, in order.
pub open spec fn section_indices<'a>(tokens: Seq<Token<'a>>, n: int, a: Alignment) -> Seq<usize>
    decreases n,
{
    if n <= 0 {
        Seq::empty()
    } else {
        let prev = section_indices(tokens, n - 1, a);
        if !(tokens[n - 1] is Alignment) && alignment_before(tokens, n - 1) == a {
            prev.push((n - 1) as usize)
        } else {
            prev
        }
    }
}

/// Sorts the indices of the tokens into the sections that draw them.
pub fn split_sections(tokens: &[Token]) -> (s: Sections)
    ensures
        s.left@ == section_indices(tokens@, tokens@.len() as int, Alignment::Left),
        s.center@ == section_indices(tokens@, tokens@.len() as int, Alignment::Center),
        s.right@ == section_indices(tokens@, tokens@.len() as int, Alignment::Right),
{
    let mut left: Vec<usize> = Vec::new();
    let mut center: Vec<usize> = Vec::new();
    let mut right: Vec<usize> = Vec::new();
    let mut current = Alignment::Left;
    let mut index: usize = 0;
    while index < tokens.len()
        invariant
            index <= tokens@.len(),
            current == alignment_before(tokens@, index as int),
            left@ == section_indices(tokens@, index as int, Alignment::Left),
            center@ == section_indices(tokens@, index as int, Alignment::Center),
            right@ == section_indices(tokens@, index as int, Alignment::Right),
        decreases tokens@.len() - index,
    {
        match tokens[index] {
            Token::Alignment(a) => {
                current = a;
            },
            _ => match current {
                Alignment::Left => left.push(index),
                Alignment::Center => center.push(index),
                Alignment::Right => right.push(index),
            },
        }
        index = index + 1;
    }
    Sections { left, center, right }
}

/// The indices of a section lie below `n` and increase.
proof fn lemma_section_order<'a>(tokens: Seq<Token<'a>>, n: int, a: Alignment)
    requires
        0 <= n <= tokens.len(),
        n <= usize::MAX,
    ensures
        forall|k: int|
            0 <= k < section_indices(tokens, n, a).len() ==> #[trigger] section_indices(
                tokens,
                n,
                a,
            )[k] < n,
        forall|k: int, l: int|
            0 <= k < l < section_indices(tokens, n, a).len() ==> section_indices(tokens, n, a)[k]
                < section_indices(tokens, n, a)[l],
    decreases n,
{
    if n > 0 {
        lemma_section_order(tokens, n - 1, a);
        let prev = section_indices(tokens, n - 1, a);
        let cur = section_indices(tokens, n, a);
        assert forall|k: int| 0 <= k < cur.len() implies #[trigger] cur[k] < n && (k < prev.len()
            ==> cur[k] == prev[k]) by {
            if k < prev.len() {
                assert(cur[k] == prev[k]);
            }
        }
        assert forall|k: int, l: int| 0 <= k < l < cur.len() implies cur[k] < cur[l] by {
            assert(cur[k] < n && cur[l] < n);
            if l < prev.len() {
                assert(prev[k] < prev[l]);
            } else {
                assert(prev[k] < n - 1);
            }
        }
    }
}

/// The section `a` draws the token at `i` exactly when it is not an alignment
/// and falls into `a`.
proof fn lemma_section_member<'a>(tokens: Seq<Token<'a>>, n: int, a: Alignment, i: int)
    requires
        0 <= i < n <= tokens.len(),
        n <= usize::MAX,
    ensures
        section_indices(tokens, n, a).contains(i as usize) <==> (!(tokens[i] is Alignment)
            && alignment_before(tokens, i) == a),
    decreases n,
{
    let prev = section_indices(tokens, n - 1, a);
    let cur = section_indices(tokens, n, a);
    lemma_section_order(tokens, n - 1, a);
    if i < n - 1 {
        lemma_section_member(tokens, n - 1, a, i);
        if cur.contains(i as usize) {
            let k = choose|k: int| 0 <= k < cur.len() && cur[k] == i as usize;
            if k < prev.len() {
                assert(prev[k] == i as usize);
            }
        }
        if prev.contains(i as usize) {
            let k = choose|k: int| 0 <= k < prev.len() && prev[k] == i as usize;
            assert(cur[k] == i as usize);
        }
    } else {
        if cur.contains(i as usize) && cur.len() == prev.len() {
            let k = choose|k: int| 0 <= k < cur.len() && cur[k] == i as usize;
            assert(prev[k] < n - 1);
        }
        if cur.len() > prev.len() {
            assert(cur[prev.len() as int] == i as usize);
        }
    }
}

/// Each token that is not an alignment is drawn by exactly one section, the
/// one that the last alignment before it selects (the left one when there is
/// none); alignments are drawn by none; and each section keeps the order of
/// the line.
pub proof fn lemma_sections_partition<'a>(tokens: Seq<Token<'a>>, a: Alignment)
    requires
        tokens.len() <= usize::MAX,
    ensures
        forall|i: int|
            0 <= i < tokens.len() ==> (section_indices(tokens, tokens.len() as int, a).contains(
                i as usize,
            ) <==> (!(#[trigger] tokens[i] is Alignment) && alignment_before(tokens, i) == a)),
        forall|k: int|
            0 <= k < section_indices(tokens, tokens.len() as int, a).len() ==> #[trigger] section_indices(
                tokens,
                tokens.len() as int,
                a,
            )[k] < tokens.len(),
        forall|k: int, l: int|
            0 <= k < l < section_indices(tokens, tokens.len() as int, a).len() ==> section_indices(
                tokens,
                tokens.len() as int,
                a,
            )[k] < section_indices(tokens, tokens.len() as int, a)[l],
{
    let n = tokens.len() as int;
    lemma_section_order(tokens, n, a);
    assert forall|i: int| 0 <= i < n implies (section_indices(tokens, n, a).contains(i as usize)
        <==> (!(#[trigger] tokens[i] is Alignment) && alignment_before(tokens, i) == a)) by {
        lemma_section_member(tokens, n, a, i);
    }
}

/// Only alignments change the section: a token that is not one leaves the
/// section of the next token as its own, and an alignment selects its
/// section for the next token. The first token is in the left section.
pub proof fn lemma_alignment_steps<'a>(tokens: Seq<Token<'a>>, i: int)
    requires
        0 <= i < tokens.len(),
    ensures
        alignment_before(tokens, 0) == Alignment::Left,
        !(tokens[i] is Alignment) ==> alignment_before(tokens, i + 1) == alignment_before(
            tokens,
            i,
        ),
        tokens[i] matches Token::Alignment(a) ==> alignment_before(tokens, i + 1) == a,
{
}

/// The section of the token at `i` is `a` exactly when the last alignment
/// before it is `a`, or when there is no alignment before it and `a` is the
/// left one: only alignments change the section.
pub proof fn lemma_alignment_before_last<'a>(tokens: Seq<Token<'a>>, i: int, a: Alignment)
    requires
        0 <= i <= tokens.len(),
    ensures
        alignment_before(tokens, i) == a <==> ((exists|k: int|
            0 <= k < i && tokens[k] == Token::Alignment(a) && forall|j: int|
                k < j < i ==> !(#[trigger] tokens[j] is Alignment)) || (a == Alignment::Left
            && forall|j: int| 0 <= j < i ==> !(#[trigger] tokens[j] is Alignment))),
    decreases i,
{
    if i > 0 {
        lemma_alignment_before_last(tokens, i - 1, a);
        match tokens[i - 1] {
            Token::Alignment(b) => {
                if b == a {
                    assert(forall|j: int| i - 1 < j < i ==> !(#[trigger] tokens[j] is Alignment));
                } else {
                    if exists|k: int|
                        0 <= k < i && tokens[k] == Token::Alignment(a) && forall|j: int|
                            k < j < i ==> !(#[trigger] tokens[j] is Alignment) {
                        let k = choose|k: int|
                            0 <= k < i && tokens[k] == Token::Alignment(a) && forall|j: int|
                                k < j < i ==> !(#[trigger] tokens[j] is Alignment);
                        if k < i - 1 {
                            assert(tokens[i - 1] is Alignment);
                        }
                    }
                    assert(tokens[i - 1] is Alignment);
                }
            },
            _ => {
                if exists|k: int|
                    0 <= k < i && tokens[k] == Token::Alignment(a) && forall|j: int|
                        k < j < i ==> !(#[trigger] tokens[j] is Alignment) {
                    let k = choose|k: int|
                        0 <= k < i && tokens[k] == Token::Alignment(a) && forall|j: int|
                            k < j < i ==> !(#[trigger] tokens[j] is Alignment);
                    assert(k < i - 1);
                }
                if exists|k: int|
                    0 <= k < i - 1 && tokens[k] == Token::Alignment(a) && forall|j: int|
                        k < j < i - 1 ==> !(#[trigger] tokens[j] is Alignment) {
                    let k = choose|k: int|
                        0 <= k < i - 1 && tokens[k] == Token::Alignment(a) && forall|j: int|
                            k < j < i - 1 ==> !(#[trigger] tokens[j] is Alignment);
                    assert(forall|j: int| k < j < i ==> !(#[trigger] tokens[j] is Alignment));
                }
            },
        }
    }
}

} // verus!
