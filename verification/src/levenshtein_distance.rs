//! Levenshtein (edit) distance between two words.
//!
//! The mathematical distance is [`edit_distance`], defined by recursion on the
//! first characters of the two words.  The table-based implementation fills
//! its table over prefixes, which corresponds to [`prefix_edit_distance`];
//! [`lemma_prefix_distance_is_edit_distance`] shows the two agree.

use vstd::prelude::*;
use vstd::utf8::*;
use vstd::string::*;
use crate::text::chars_of;

verus! {

/// The smallest of three numbers.
pub open spec fn min3(x: nat, y: nat, z: nat) -> nat {
    if x <= y && x <= z {
        x
    } else if y <= z {
        y
    } else {
        z
    }
}

/// Cost of substituting `c` by `d`.
pub open spec fn substitution_cost(c: char, d: char) -> nat {
    if c == d {
        0
    } else {
        1
    }
}

/// The Levenshtein distance: the least number of single-character
/// insertions, deletions and substitutions that turn `a` into `b`.
pub open spec fn edit_distance(a: Seq<char>, b: Seq<char>) -> nat
    decreases a.len() + b.len(),
{
    if a.len() == 0 {
        b.len()
    } else if b.len() == 0 {
        a.len()
    } else {
        min3(
            edit_distance(a.drop_first(), b) + 1,
            edit_distance(a, b.drop_first()) + 1,
            edit_distance(a.drop_first(), b.drop_first()) + substitution_cost(a[0], b[0]),
        )
    }
}

/// The same distance computed by recursion on the last characters, the way
/// a table over prefixes computes it.
pub open spec fn prefix_edit_distance(a: Seq<char>, b: Seq<char>) -> nat
    decreases a.len() + b.len(),
{
    if a.len() == 0 {
        b.len()
    } else if b.len() == 0 {
        a.len()
    } else {
        min3(
            prefix_edit_distance(a.drop_last(), b) + 1,
            prefix_edit_distance(a, b.drop_last()) + 1,
            prefix_edit_distance(a.drop_last(), b.drop_last()) + substitution_cost(
                a.last(),
                b.last(),
            ),
        )
    }
}

/// Number of bytes in the UTF-8 encoding of `s`.
pub open spec fn utf8_len(s: Seq<char>) -> nat {
    encode_utf8(s).len()
}

/// The distance computed by the recursive variant: it skips equal first
/// characters, and when one word is exhausted it counts the *bytes* (not the
/// characters) left in the other word.
pub open spec fn recursive_distance(a: Seq<char>, b: Seq<char>) -> nat
    decreases a.len() + b.len(),
{
    if a.len() == 0 {
        utf8_len(b)
    } else if b.len() == 0 {
        utf8_len(a)
    } else if a[0] == b[0] {
        recursive_distance(a.drop_first(), b.drop_first())
    } else {
        1 + min3(
            recursive_distance(a.drop_first(), b),
            recursive_distance(a, b.drop_first()),
            recursive_distance(a.drop_first(), b.drop_first()),
        )
    }
}

// ---------------------------------------------------------------------------
// Lemmas on the distance
// ---------------------------------------------------------------------------

/// Dropping the first character of `a` changes the distance by at most one.
proof fn lemma_drop_first_left(a: Seq<char>, b: Seq<char>)
    requires
        a.len() > 0,
    ensures
        edit_distance(a, b) <= edit_distance(a.drop_first(), b) + 1,
{
}

/// Dropping the first character of `b` costs at most one more edit.
proof fn lemma_drop_first_right_le(a: Seq<char>, b: Seq<char>)
    requires
        b.len() > 0,
    ensures
        edit_distance(a, b.drop_first()) <= edit_distance(a, b) + 1,
    decreases a.len(),
{
    if a.len() > 0 {
        lemma_drop_first_right_le(a.drop_first(), b);
        lemma_drop_first_left(a, b.drop_first());
    }
}

/// The distance is symmetric.
pub proof fn lemma_edit_distance_symmetric(a: Seq<char>, b: Seq<char>)
    ensures
        edit_distance(a, b) == edit_distance(b, a),
    decreases a.len() + b.len(),
{
    if a.len() > 0 && b.len() > 0 {
        lemma_edit_distance_symmetric(a.drop_first(), b);
        lemma_edit_distance_symmetric(a, b.drop_first());
        lemma_edit_distance_symmetric(a.drop_first(), b.drop_first());
    }
}

/// The byte-counting recursive distance is symmetric too.
pub proof fn lemma_recursive_distance_symmetric(a: Seq<char>, b: Seq<char>)
    ensures
        recursive_distance(a, b) == recursive_distance(b, a),
    decreases a.len() + b.len(),
{
    if a.len() > 0 && b.len() > 0 {
        lemma_recursive_distance_symmetric(a.drop_first(), b);
        lemma_recursive_distance_symmetric(a, b.drop_first());
        lemma_recursive_distance_symmetric(a.drop_first(), b.drop_first());
    }
}

/// When the first characters agree, the distance is that of the rests.
pub proof fn lemma_equal_first_characters(a: Seq<char>, b: Seq<char>)
    requires
        a.len() > 0,
        b.len() > 0,
        a[0] == b[0],
    ensures
        edit_distance(a, b) == edit_distance(a.drop_first(), b.drop_first()),
{
    lemma_drop_first_right_le(a.drop_first(), b);
    lemma_edit_distance_symmetric(a.drop_first(), b.drop_first());
    lemma_edit_distance_symmetric(b.drop_first(), a);
    lemma_drop_first_right_le(b.drop_first(), a);
    lemma_edit_distance_symmetric(b.drop_first(), a.drop_first());
    lemma_edit_distance_symmetric(a, b.drop_first());
}

/// A word is at distance zero from itself, and only from itself.
pub proof fn lemma_edit_distance_zero_iff_equal(a: Seq<char>, b: Seq<char>)
    ensures
        edit_distance(a, b) == 0 <==> a == b,
    decreases a.len() + b.len(),
{
    if a.len() > 0 && b.len() > 0 {
        lemma_edit_distance_zero_iff_equal(a.drop_first(), b.drop_first());
        if a == b {
            lemma_equal_first_characters(a, b);
        }
        if a.drop_first() == b.drop_first() && a[0] == b[0] {
            assert(a =~= seq![a[0]] + a.drop_first());
            assert(b =~= seq![b[0]] + b.drop_first());
        }
    } else if a.len() == 0 && b.len() == 0 {
        assert(a =~= b);
    }
}

/// The distance lies between the difference and the larger of the lengths.
pub proof fn lemma_edit_distance_bounds(a: Seq<char>, b: Seq<char>)
    ensures
        edit_distance(a, b) <= if a.len() >= b.len() {
            a.len()
        } else {
            b.len()
        },
        edit_distance(a, b) >= if a.len() >= b.len() {
            a.len() - b.len()
        } else {
            b.len() - a.len()
        },
    decreases a.len() + b.len(),
{
    if a.len() > 0 && b.len() > 0 {
        lemma_edit_distance_bounds(a.drop_first(), b);
        lemma_edit_distance_bounds(a, b.drop_first());
        lemma_edit_distance_bounds(a.drop_first(), b.drop_first());
    }
}

/// The prefix table bound: the distance never exceeds the longer length.
proof fn lemma_prefix_distance_bound(a: Seq<char>, b: Seq<char>)
    ensures
        prefix_edit_distance(a, b) <= if a.len() >= b.len() {
            a.len()
        } else {
            b.len()
        },
    decreases a.len() + b.len(),
{
    if a.len() > 0 && b.len() > 0 {
        lemma_prefix_distance_bound(a.drop_last(), b.drop_last());
    }
}

/// Suffix distance at positions `i`, `j`.
spec fn suffix_at(a: Seq<char>, b: Seq<char>, i: int, j: int) -> nat {
    edit_distance(a.skip(i), b.skip(j))
}

/// Prefix distance at lengths `i`, `j`.
spec fn prefix_at(a: Seq<char>, b: Seq<char>, i: int, j: int) -> nat {
    prefix_edit_distance(a.take(i), b.take(j))
}

proof fn lemma_suffix_unfold(a: Seq<char>, b: Seq<char>, i: int, j: int)
    requires
        0 <= i <= a.len(),
        0 <= j <= b.len(),
    ensures
        i == a.len() ==> suffix_at(a, b, i, j) == b.len() - j,
        j == b.len() ==> suffix_at(a, b, i, j) == a.len() - i,
        i < a.len() && j < b.len() ==> suffix_at(a, b, i, j) == min3(
            suffix_at(a, b, i + 1, j) + 1,
            suffix_at(a, b, i, j + 1) + 1,
            suffix_at(a, b, i + 1, j + 1) + substitution_cost(a[i], b[j]),
        ),
{
    if i < a.len() {
        assert(a.skip(i).drop_first() =~= a.skip(i + 1));
    }
    if j < b.len() {
        assert(b.skip(j).drop_first() =~= b.skip(j + 1));
    }
}

proof fn lemma_prefix_unfold(a: Seq<char>, b: Seq<char>, i: int, j: int)
    requires
        0 <= i <= a.len(),
        0 <= j <= b.len(),
    ensures
        i == 0 ==> prefix_at(a, b, i, j) == j,
        j == 0 ==> prefix_at(a, b, i, j) == i,
        i > 0 && j > 0 ==> prefix_at(a, b, i, j) == min3(
            prefix_at(a, b, i - 1, j) + 1,
            prefix_at(a, b, i, j - 1) + 1,
            prefix_at(a, b, i - 1, j - 1) + substitution_cost(a[i - 1], b[j - 1]),
        ),
{
    if i > 0 {
        assert(a.take(i).drop_last() =~= a.take(i - 1));
    }
    if j > 0 {
        assert(b.take(j).drop_last() =~= b.take(j - 1));
    }
}

/// One step forward in the prefix table costs at most the edge weight.
proof fn lemma_prefix_steps(a: Seq<char>, b: Seq<char>, i: int, j: int)
    requires
        0 <= i <= a.len(),
        0 <= j <= b.len(),
    ensures
        i < a.len() ==> prefix_at(a, b, i + 1, j) <= prefix_at(a, b, i, j) + 1,
        j < b.len() ==> prefix_at(a, b, i, j + 1) <= prefix_at(a, b, i, j) + 1,
        i < a.len() && j < b.len() ==> prefix_at(a, b, i + 1, j + 1) <= prefix_at(a, b, i, j)
            + substitution_cost(a[i], b[j]),
{
    lemma_prefix_unfold(a, b, i, j);
    if i < a.len() {
        lemma_prefix_unfold(a, b, i + 1, j);
    }
    if j < b.len() {
        lemma_prefix_unfold(a, b, i, j + 1);
    }
    if i < a.len() && j < b.len() {
        lemma_prefix_unfold(a, b, i + 1, j + 1);
    }
}

/// One step backward in the suffix table costs at most the edge weight.
proof fn lemma_suffix_steps(a: Seq<char>, b: Seq<char>, i: int, j: int)
    requires
        0 <= i <= a.len(),
        0 <= j <= b.len(),
    ensures
        i > 0 ==> suffix_at(a, b, i - 1, j) <= suffix_at(a, b, i, j) + 1,
        j > 0 ==> suffix_at(a, b, i, j - 1) <= suffix_at(a, b, i, j) + 1,
        i > 0 && j > 0 ==> suffix_at(a, b, i - 1, j - 1) <= suffix_at(a, b, i, j)
            + substitution_cost(a[i - 1], b[j - 1]),
{
    lemma_suffix_unfold(a, b, i, j);
    if i > 0 {
        lemma_suffix_unfold(a, b, i - 1, j);
    }
    if j > 0 {
        lemma_suffix_unfold(a, b, i, j - 1);
    }
    if i > 0 && j > 0 {
        lemma_suffix_unfold(a, b, i - 1, j - 1);
    }
}

/// Every path through `(i, j)` costs at least the full prefix distance.
proof fn lemma_prefix_total_le(a: Seq<char>, b: Seq<char>, i: int, j: int)
    requires
        0 <= i <= a.len(),
        0 <= j <= b.len(),
    ensures
        prefix_at(a, b, a.len() as int, b.len() as int) <= prefix_at(a, b, i, j) + suffix_at(
            a,
            b,
            i,
            j,
        ),
    decreases (a.len() - i) + (b.len() - j),
{
    lemma_suffix_unfold(a, b, i, j);
    lemma_prefix_steps(a, b, i, j);
    if i < a.len() && j < b.len() {
        lemma_prefix_total_le(a, b, i + 1, j);
        lemma_prefix_total_le(a, b, i, j + 1);
        lemma_prefix_total_le(a, b, i + 1, j + 1);
    } else if i < a.len() {
        lemma_prefix_total_le(a, b, i + 1, j);
        lemma_suffix_unfold(a, b, i + 1, j);
    } else if j < b.len() {
        lemma_prefix_total_le(a, b, i, j + 1);
        lemma_suffix_unfold(a, b, i, j + 1);
    }
}

/// Every path through `(i, j)` costs at least the full suffix distance.
proof fn lemma_suffix_total_le(a: Seq<char>, b: Seq<char>, i: int, j: int)
    requires
        0 <= i <= a.len(),
        0 <= j <= b.len(),
    ensures
        suffix_at(a, b, 0, 0) <= prefix_at(a, b, i, j) + suffix_at(a, b, i, j),
    decreases i + j,
{
    lemma_prefix_unfold(a, b, i, j);
    lemma_suffix_steps(a, b, i, j);
    if i > 0 && j > 0 {
        lemma_suffix_total_le(a, b, i - 1, j);
        lemma_suffix_total_le(a, b, i, j - 1);
        lemma_suffix_total_le(a, b, i - 1, j - 1);
    } else if i > 0 {
        lemma_suffix_total_le(a, b, i - 1, j);
        lemma_prefix_unfold(a, b, i - 1, j);
    } else if j > 0 {
        lemma_suffix_total_le(a, b, i, j - 1);
        lemma_prefix_unfold(a, b, i, j - 1);
    }
}

/// Filling the table over prefixes and recursing over suffixes give the same
/// distance.
pub proof fn lemma_prefix_distance_is_edit_distance(a: Seq<char>, b: Seq<char>)
    ensures
        prefix_edit_distance(a, b) == edit_distance(a, b),
{
    let n = a.len() as int;
    let m = b.len() as int;
    lemma_prefix_total_le(a, b, 0, 0);
    lemma_suffix_total_le(a, b, n, m);
    lemma_prefix_unfold(a, b, 0, 0);
    lemma_suffix_unfold(a, b, n, m);
    assert(a.take(n) =~= a);
    assert(b.take(m) =~= b);
    assert(a.skip(0) =~= a);
    assert(b.skip(0) =~= b);
}

/// On ASCII words the recursive variant computes the edit distance.
pub proof fn lemma_recursive_distance_ascii(a: Seq<char>, b: Seq<char>)
    requires
        is_ascii_chars(a),
        is_ascii_chars(b),
    ensures
        recursive_distance(a, b) == edit_distance(a, b),
    decreases a.len() + b.len(),
{
    is_ascii_chars_encode_utf8(a);
    is_ascii_chars_encode_utf8(b);
    if a.len() > 0 && b.len() > 0 {
        assert(is_ascii_chars(a.drop_first()));
        assert(is_ascii_chars(b.drop_first()));
        lemma_recursive_distance_ascii(a.drop_first(), b.drop_first());
        if a[0] == b[0] {
            lemma_equal_first_characters(a, b);
        } else {
            lemma_recursive_distance_ascii(a.drop_first(), b);
            lemma_recursive_distance_ascii(a, b.drop_first());
        }
    }
}

proof fn lemma_utf8_len_drop_first(s: Seq<char>)
    requires
        s.len() > 0,
    ensures
        utf8_len(s) >= utf8_len(s.drop_first()) + 1,
{
}

proof fn lemma_recursive_distance_bound(a: Seq<char>, b: Seq<char>)
    ensures
        recursive_distance(a, b) <= if utf8_len(a) >= utf8_len(b) {
            utf8_len(a)
        } else {
            utf8_len(b)
        },
    decreases a.len() + b.len(),
{
    if a.len() > 0 && b.len() > 0 {
        lemma_utf8_len_drop_first(a);
        lemma_utf8_len_drop_first(b);
        lemma_recursive_distance_bound(a.drop_first(), b.drop_first());
    }
}

// ---------------------------------------------------------------------------
// Executable functions
// ---------------------------------------------------------------------------

/// The Levenshtein distance between two words (the table-based algorithm).
pub fn levenshtein_dist_word(w1: &str, w2: &str) -> (d: usize)
    requires
        w1@.len() < usize::MAX,
        w2@.len() < usize::MAX,
    ensures
        d == edit_distance(w1@, w2@),
{
    levenshtein_dist_word_array(w1, w2)
}

fn smallest_of_three(x: usize, y: usize, z: usize) -> (m: usize)
    ensures
        m == min3(x as nat, y as nat, z as nat),
{
    if x <= y && x <= z {
        x
    } else if y <= z {
        y
    } else {
        z
    }
}

/// The distance by plain recursion: equal first characters are skipped,
/// otherwise one plus the best of deleting, inserting or substituting.  When a
/// word runs out, the number of bytes left in the other word is returned.
pub fn levenshtein_dist_word_recursive(w1: &str, w2: &str) -> (d: usize)
    requires
        utf8_len(w1@) <= usize::MAX,
        utf8_len(w2@) <= usize::MAX,
    ensures
        d == recursive_distance(w1@, w2@),
    decreases w1@.len() + w2@.len(),
{
    if w1.len() == 0 {
        return w2.len();
    }
    if w2.len() == 0 {
        return w1.len();
    }
    let n1 = w1.unicode_len();
    let n2 = w2.unicode_len();
    let first_char_w1 = w1.get_char(0);
    let first_char_w2 = w2.get_char(0);
    let rest_w1 = w1.substring_char(1, n1);
    let rest_w2 = w2.substring_char(1, n2);
    proof {
        assert(rest_w1@ =~= w1@.drop_first());
        assert(rest_w2@ =~= w2@.drop_first());
        lemma_utf8_len_drop_first(w1@);
        lemma_utf8_len_drop_first(w2@);
    }
    if first_char_w1 == first_char_w2 {
        return levenshtein_dist_word_recursive(rest_w1, rest_w2);
    }
    let x = levenshtein_dist_word_recursive(rest_w1, w2);
    let y = levenshtein_dist_word_recursive(w1, rest_w2);
    let z = levenshtein_dist_word_recursive(rest_w1, rest_w2);
    proof {
        lemma_recursive_distance_bound(w1@.drop_first(), w2@.drop_first());
    }
    1 + smallest_of_three(x, y, z)
}

/// The distance by the classic table over prefixes: cell `(i, j)` holds the
/// distance between the first `j` characters of `w1` and the first `i`
/// characters of `w2`.
pub fn levenshtein_dist_word_array(w1: &str, w2: &str) -> (d: usize)
    requires
        w1@.len() < usize::MAX,
        w2@.len() < usize::MAX,
    ensures
        d == edit_distance(w1@, w2@),
{
    let w1_chars = chars_of(w1);
    let w2_chars = chars_of(w2);
    levenshtein_dist_chars(&w1_chars, &w2_chars)
}

/// The table-based distance for words given as characters.
pub fn levenshtein_dist_chars(w1_chars: &Vec<char>, w2_chars: &Vec<char>) -> (d: usize)
    requires
        w1_chars@.len() < usize::MAX,
        w2_chars@.len() < usize::MAX,
    ensures
        d == edit_distance(w1_chars@, w2_chars@),
{
    let width = w1_chars.len();
    let height = w2_chars.len();
    let ghost a = w1_chars@;
    let ghost b = w2_chars@;

    let mut array: Vec<Vec<usize>> = Vec::new();
    let mut first_row: Vec<usize> = Vec::new();
    for j in 0..width + 1
        invariant
            width == a.len(),
            first_row@.len() == j,
            forall|k: int| 0 <= k < j ==> first_row@[k] == k,
    {
        first_row.push(j);
    }
    proof {
        assert forall|k: int| 0 <= k <= width implies first_row@[k] == prefix_at(a, b, k, 0) by {
            lemma_prefix_unfold(a, b, k, 0);
        }
    }
    array.push(first_row);

    for i in 1..height + 1
        invariant
            width == a.len(),
            height == b.len(),
            w1_chars@ == a,
            w2_chars@ == b,
            height < usize::MAX,
            width < usize::MAX,
            array@.len() == i,
            forall|r: int|
                #![trigger array@[r]]
                0 <= r < i ==> array@[r]@.len() == width + 1,
            forall|r: int, k: int|
                #![trigger array@[r]@[k]]
                0 <= r < i && 0 <= k <= width ==> array@[r]@[k] == prefix_at(a, b, k, r),
    {
        let mut row: Vec<usize> = Vec::new();
        proof {
            lemma_prefix_unfold(a, b, 0, i as int);
        }
        row.push(i);
        for j in 1..width + 1
            invariant
                width == a.len(),
                height == b.len(),
                w1_chars@ == a,
                w2_chars@ == b,
                1 <= i <= height,
                height < usize::MAX,
                width < usize::MAX,
                array@.len() == i,
                forall|r: int|
                    #![trigger array@[r]]
                    0 <= r < i ==> array@[r]@.len() == width + 1,
                forall|r: int, k: int|
                    #![trigger array@[r]@[k]]
                    0 <= r < i && 0 <= k <= width ==> array@[r]@[k] == prefix_at(a, b, k, r),
                row@.len() == j,
                forall|k: int| #![trigger row@[k]] 0 <= k < j ==> row@[k] == prefix_at(a, b, k, i as int),
        {
            let mut sub_cost: usize = 0;
            if w1_chars[j - 1] == w2_chars[i - 1] {
            } else {
                sub_cost = 1;
            }
            let diag = array[i - 1][j - 1];
            let up = array[i - 1][j];
            let left = row[j - 1];
            proof {
                lemma_prefix_unfold(a, b, j as int, i as int);
                lemma_prefix_distance_bound(a.take(j - 1), b.take(i - 1));
                lemma_prefix_distance_bound(a.take(j as int), b.take(i - 1));
                lemma_prefix_distance_bound(a.take(j - 1), b.take(i as int));
            }
            let v = smallest_of_three(diag + sub_cost, left + 1, up + 1);
            row.push(v);
        }
        array.push(row);
    }
    proof {
        lemma_prefix_distance_is_edit_distance(a, b);
        assert(a.take(width as int) =~= a);
        assert(b.take(height as int) =~= b);
    }
    array[height][width]
}

/// Distance for two words; an accelerated path was planned for ASCII words
/// and never finished, so only words that are not both ASCII are accepted,
/// and those are measured with the table-based algorithm.
pub fn levenshtein_dist_word_simd(w1: &str, w2: &str) -> (d: usize)
    requires
        !(is_ascii(w1) && is_ascii(w2)),
        w1@.len() < usize::MAX,
        w2@.len() < usize::MAX,
    ensures
        d == edit_distance(w1@, w2@),
{
    levenshtein_dist_word_array(w1, w2)
}

} // verus!
