//! Judging answers: free text is compared after normalisation (case,
//! accents, punctuation and repeated whitespace ignored) with a small typo
//! tolerance measured by the optimal-string-alignment distance.
use vstd::prelude::*;
use unicode_normalization::UnicodeNormalization;
use crate::model::{AnswerView, Question, QuestionView, SubmittedAnswer};
use crate::text::{char_is_alphanumeric, char_lowercase, chars_of, is_alphanumeric, lowercase_char,
    same_text, string_from_chars};

verus! {

// ---------------------------------------------------------------------------
// Unicode decomposition (unicode-normalization).
// ---------------------------------------------------------------------------

/// The characters of the compatibility decomposition (NFKD) of `s`.
pub uninterp spec fn nfkd(s: Seq<char>) -> Seq<char>;

/// Whether `c` is a combining mark (general category `M*`).
pub uninterp spec fn is_combining_mark(c: char) -> bool;

/// Trusted: `UnicodeNormalization::nfkd` on a `str`, collected; named `nfkd`.
#[verifier::external_body]
fn decompose(s: &str) -> (r: Vec<char>)
    ensures
        r@ == nfkd(s@),
{
    s.nfkd().collect()
}

/// Trusted: `unicode_normalization::char::is_combining_mark`; named `is_combining_mark`.
#[verifier::external_body]
fn combining_mark(c: char) -> (r: bool)
    ensures
        r == is_combining_mark(c),
{
    unicode_normalization::char::is_combining_mark(c)
}

// ---------------------------------------------------------------------------
// Normalisation
// ---------------------------------------------------------------------------

/// The decomposed characters of `s` without combining marks, each lower-cased.
pub open spec fn folded(s: Seq<char>) -> Seq<char>
    decreases s.len(),
{
    if s.len() == 0 {
        seq![]
    } else {
        folded(s.drop_last()) + (if is_combining_mark(s.last()) {
            seq![]
        } else {
            char_lowercase(s.last())
        })
    }
}

/// One step of collapsing: alphanumeric characters are kept, and a run of
/// other characters between two kept ones becomes a single space. The flag
/// records a run not yet written.
pub open spec fn collapse_step(acc: (Seq<char>, bool), c: char) -> (Seq<char>, bool) {
    if char_is_alphanumeric(c) {
        (
            (if acc.1 && acc.0.len() > 0 {
                acc.0.push(' ')
            } else {
                acc.0
            }).push(c),
            false,
        )
    } else {
        (acc.0, true)
    }
}

/// Collapsing applied to every character of `s`, in order.
pub open spec fn collapse(s: Seq<char>) -> (Seq<char>, bool)
    decreases s.len(),
{
    if s.len() == 0 {
        (seq![], false)
    } else {
        collapse_step(collapse(s.drop_last()), s.last())
    }
}

/// The normal form of an answer: decomposed, marks dropped, lower-cased,
/// reduced to alphanumeric words separated by single spaces.
pub open spec fn normalized(s: Seq<char>) -> Seq<char> {
    collapse(folded(nfkd(s))).0
}

/// Every character of `s` is alphanumeric.
pub open spec fn all_alphanumeric(s: Seq<char>) -> bool {
    forall|i: int| 0 <= i < s.len() ==> char_is_alphanumeric(#[trigger] s[i])
}

/// No character of `s` is alphanumeric.
pub open spec fn none_alphanumeric(s: Seq<char>) -> bool {
    forall|i: int| 0 <= i < s.len() ==> !char_is_alphanumeric(#[trigger] s[i])
}

proof fn lemma_collapse_append_word(x: Seq<char>, v: Seq<char>)
    requires
        all_alphanumeric(v),
    ensures
        v.len() > 0 ==> collapse(x + v) == (
            collapse(x).0 + (if collapse(x).1 && collapse(x).0.len() > 0 {
                seq![' ']
            } else {
                seq![]
            }) + v,
            false,
        ),
        v.len() == 0 ==> collapse(x + v) == collapse(x),
    decreases v.len(),
{
    if v.len() == 0 {
        assert(x + v =~= x);
    } else {
        let w = v.drop_last();
        assert((x + v).drop_last() =~= x + w);
        assert((x + v).last() == v.last());
        assert(char_is_alphanumeric(v[v.len() - 1]));
        lemma_collapse_append_word(x, w);
        let sp: Seq<char> = if collapse(x).1 && collapse(x).0.len() > 0 {
            seq![' ']
        } else {
            seq![]
        };
        if w.len() == 0 {
            assert(x + w =~= x);
            assert(collapse(x + v).0 =~= collapse(x).0 + sp + v);
        } else {
            assert(collapse(x + v).0 =~= (collapse(x).0 + sp + w).push(v.last()));
            assert((collapse(x).0 + sp + w).push(v.last()) =~= collapse(x).0 + sp + v);
        }
    }
}

proof fn lemma_collapse_append_gap(x: Seq<char>, m: Seq<char>)
    requires
        none_alphanumeric(m),
    ensures
        m.len() > 0 ==> collapse(x + m) == (collapse(x).0, true),
        m.len() == 0 ==> collapse(x + m) == collapse(x),
    decreases m.len(),
{
    if m.len() == 0 {
        assert(x + m =~= x);
    } else {
        let w = m.drop_last();
        assert((x + m).drop_last() =~= x + w);
        assert((x + m).last() == m.last());
        assert(!char_is_alphanumeric(m[m.len() - 1]));
        lemma_collapse_append_gap(x, w);
    }
}

/// The last stage of normalisation keeps words and turns each gap between
/// them into one space: a word alone is kept as it is, a run of
/// non-alphanumeric characters before or after it is dropped, and such a
/// run between two words becomes a single space.
pub proof fn lemma_collapse_words(u: Seq<char>, m: Seq<char>, v: Seq<char>)
    requires
        u.len() > 0,
        v.len() > 0,
        m.len() > 0,
        all_alphanumeric(u),
        all_alphanumeric(v),
        none_alphanumeric(m),
    ensures
        collapse(u).0 == u,
        collapse(m).0 == Seq::<char>::empty(),
        collapse(m + u + m).0 == u,
        collapse(u + m + v).0 == u + seq![' '] + v,
{
    let e = Seq::<char>::empty();
    lemma_collapse_append_word(e, u);
    assert(e + u =~= u);
    lemma_collapse_append_gap(e, m);
    assert(e + m =~= m);
    lemma_collapse_append_word(m, u);
    lemma_collapse_append_gap(m + u, m);
    lemma_collapse_append_gap(u, m);
    lemma_collapse_append_word(u + m, v);
}

/// The normal form of `input` that free-text answers are compared in.
pub fn normalize_answer(input: &str) -> (r: String)
    ensures
        r@ == normalized(input@),
{
    let decomposed = decompose(input);
    let mut output: Vec<char> = Vec::new();
    let mut pending_space = false;
    let ghost mut seen: Seq<char> = seq![];
    let mut i: usize = 0;
    while i < decomposed.len()
        invariant
            i <= decomposed@.len(),
            decomposed@ == nfkd(input@),
            seen == folded(decomposed@.take(i as int)),
            (output@, pending_space) == collapse(seen),
        decreases decomposed@.len() - i,
    {
        let c = decomposed[i];
        assert(decomposed@.take(i + 1).drop_last() =~= decomposed@.take(i as int));
        if !combining_mark(c) {
            let lower = lowercase_char(c);
            let mut j: usize = 0;
            while j < lower.len()
                invariant
                    j <= lower@.len(),
                    lower@ == char_lowercase(c),
                    seen == folded(decomposed@.take(i as int)) + lower@.take(j as int),
                    (output@, pending_space) == collapse(seen),
                decreases lower@.len() - j,
            {
                let l = lower[j];
                proof {
                    assert(seen.push(l).drop_last() =~= seen);
                    assert(folded(decomposed@.take(i as int)) + lower@.take(j + 1) =~= seen.push(l));
                    seen = seen.push(l);
                }
                if is_alphanumeric(l) {
                    if pending_space && output.len() > 0 {
                        output.push(' ');
                    }
                    output.push(l);
                    pending_space = false;
                } else {
                    pending_space = true;
                }
                j = j + 1;
            }
            assert(lower@.take(lower@.len() as int) =~= lower@);
            assert(decomposed@.take(i + 1).last() == c);
        } else {
            assert(folded(decomposed@.take(i + 1)) =~= folded(decomposed@.take(i as int)) + seq![]);
        }
        i = i + 1;
    }
    assert(decomposed@.take(decomposed@.len() as int) =~= decomposed@);
    string_from_chars(&output)
}

// ---------------------------------------------------------------------------
// Optimal string alignment distance
// ---------------------------------------------------------------------------

pub open spec fn min2(x: int, y: int) -> int {
    if x <= y { x } else { y }
}

/// The optimal-string-alignment distance between the first `i` characters
/// of `a` and the first `j` characters of `b`: the fewest insertions,
/// deletions, substitutions and transpositions of adjacent characters,
/// no substring edited twice.
pub open spec fn osa(a: Seq<char>, b: Seq<char>, i: nat, j: nat) -> int
    decreases i + j,
{
    if i == 0 {
        j as int
    } else if j == 0 {
        i as int
    } else {
        let cost: int = if a[i - 1] == b[j - 1] { 0 } else { 1 };
        let best = min2(
            min2(osa(a, b, (i - 1) as nat, j) + 1, osa(a, b, i, (j - 1) as nat) + 1),
            osa(a, b, (i - 1) as nat, (j - 1) as nat) + cost,
        );
        if i > 1 && j > 1 && a[i - 1] == b[j - 2] && a[i - 2] == b[j - 1] {
            min2(best, osa(a, b, (i - 2) as nat, (j - 2) as nat) + 1)
        } else {
            best
        }
    }
}

/// The optimal-string-alignment distance between `a` and `b`.
pub open spec fn edit_distance(a: Seq<char>, b: Seq<char>) -> int {
    osa(a, b, a.len(), b.len())
}

pub open spec fn max2(x: int, y: int) -> int {
    if x >= y { x } else { y }
}

/// Every prefix distance lies between 0 and the longer prefix's length.
pub proof fn lemma_osa_bounds(a: Seq<char>, b: Seq<char>, i: nat, j: nat)
    ensures
        0 <= osa(a, b, i, j) <= max2(i as int, j as int),
    decreases i + j,
{
    if i > 0 && j > 0 {
        lemma_osa_bounds(a, b, (i - 1) as nat, j);
        lemma_osa_bounds(a, b, i, (j - 1) as nat);
        lemma_osa_bounds(a, b, (i - 1) as nat, (j - 1) as nat);
        if i > 1 && j > 1 {
            lemma_osa_bounds(a, b, (i - 2) as nat, (j - 2) as nat);
        }
    }
}

/// A text is at distance 0 from itself.
pub proof fn lemma_osa_identical(a: Seq<char>, i: nat)
    requires
        i <= a.len(),
    ensures
        osa(a, a, i, i) == 0,
    decreases i,
{
    if i > 0 {
        lemma_osa_identical(a, (i - 1) as nat);
        lemma_osa_bounds(a, a, (i - 1) as nat, i);
        lemma_osa_bounds(a, a, i, (i - 1) as nat);
        if i > 1 {
            lemma_osa_bounds(a, a, (i - 2) as nat, (i - 2) as nat);
        }
    }
}

/// The distance does not depend on the order of its arguments.
pub proof fn lemma_osa_symmetric(a: Seq<char>, b: Seq<char>, i: nat, j: nat)
    ensures
        osa(a, b, i, j) == osa(b, a, j, i),
    decreases i + j,
{
    if i > 0 && j > 0 {
        lemma_osa_symmetric(a, b, (i - 1) as nat, j);
        lemma_osa_symmetric(a, b, i, (j - 1) as nat);
        lemma_osa_symmetric(a, b, (i - 1) as nat, (j - 1) as nat);
        if i > 1 && j > 1 {
            lemma_osa_symmetric(a, b, (i - 2) as nat, (j - 2) as nat);
        }
    }
}

/// A prefix distance is at least the difference of the prefix lengths.
proof fn lemma_osa_length_gap(a: Seq<char>, b: Seq<char>, i: nat, j: nat)
    ensures
        osa(a, b, i, j) >= i - j,
        osa(a, b, i, j) >= j - i,
    decreases i + j,
{
    if i > 0 && j > 0 {
        lemma_osa_length_gap(a, b, (i - 1) as nat, j);
        lemma_osa_length_gap(a, b, i, (j - 1) as nat);
        lemma_osa_length_gap(a, b, (i - 1) as nat, (j - 1) as nat);
        if i > 1 && j > 1 {
            lemma_osa_length_gap(a, b, (i - 2) as nat, (j - 2) as nat);
        }
    }
}

/// Prefixes at distance 0 have the same length and the same characters.
proof fn lemma_osa_zero(a: Seq<char>, b: Seq<char>, i: nat, j: nat)
    requires
        i <= a.len(),
        j <= b.len(),
        osa(a, b, i, j) == 0,
    ensures
        i == j,
        forall|k: int| 0 <= k < i ==> a[k] == b[k],
    decreases i + j,
{
    if i > 0 && j > 0 {
        lemma_osa_bounds(a, b, (i - 1) as nat, j);
        lemma_osa_bounds(a, b, i, (j - 1) as nat);
        lemma_osa_bounds(a, b, (i - 1) as nat, (j - 1) as nat);
        if i > 1 && j > 1 {
            lemma_osa_bounds(a, b, (i - 2) as nat, (j - 2) as nat);
        }
        assert(a[i - 1] == b[j - 1]);
        assert(osa(a, b, (i - 1) as nat, (j - 1) as nat) == 0);
        lemma_osa_zero(a, b, (i - 1) as nat, (j - 1) as nat);
    }
}

/// The edit distance is symmetric, is 0 exactly when the texts are equal,
/// and lies between the difference of their lengths and the longer length.
pub proof fn lemma_edit_distance_laws(a: Seq<char>, b: Seq<char>)
    ensures
        edit_distance(a, b) == edit_distance(b, a),
        edit_distance(a, b) == 0 <==> a == b,
        a.len() - b.len() <= edit_distance(a, b),
        b.len() - a.len() <= edit_distance(a, b),
        edit_distance(a, b) <= max2(a.len() as int, b.len() as int),
{
    lemma_osa_symmetric(a, b, a.len(), b.len());
    lemma_osa_length_gap(a, b, a.len(), b.len());
    lemma_osa_bounds(a, b, a.len(), b.len());
    if edit_distance(a, b) == 0 {
        lemma_osa_zero(a, b, a.len(), b.len());
        assert(a =~= b);
    }
    if a == b {
        lemma_osa_identical(a, a.len());
    }
}

/// Along a stretch where the two texts agree character for character, the
/// prefix distance does not grow.
proof fn lemma_osa_diagonal(a: Seq<char>, b: Seq<char>, i: nat, j: nat, k: nat)
    requires
        i + k <= a.len(),
        j + k <= b.len(),
        a.subrange(i as int, (i + k) as int) == b.subrange(j as int, (j + k) as int),
    ensures
        osa(a, b, i + k, j + k) <= osa(a, b, i, j),
    decreases k,
{
    if k > 0 {
        assert(a.subrange(i as int, (i + k - 1) as int) =~= a.subrange(i as int, (i + k) as int).subrange(0, k - 1));
        assert(b.subrange(j as int, (j + k - 1) as int) =~= b.subrange(j as int, (j + k) as int).subrange(0, k - 1));
        lemma_osa_diagonal(a, b, i, j, (k - 1) as nat);
        assert(a.subrange(i as int, (i + k) as int)[k - 1] == b.subrange(j as int, (j + k) as int)[k - 1]);
        let i1 = (i + k - 1) as nat;
        let j1 = (j + k - 1) as nat;
        assert(a.subrange(i as int, (i + k) as int)[k - 1] == a[i1 as int]);
        assert(b.subrange(j as int, (j + k) as int)[k - 1] == b[j1 as int]);
        assert(osa(a, b, i1 + 1, j1 + 1) <= osa(a, b, i1, j1));
        assert(i + k == i1 + 1 && j + k == j1 + 1);
    }
}

/// Texts that agree on their first `p` characters are at prefix distance 0 there.
proof fn lemma_osa_common_prefix(a: Seq<char>, b: Seq<char>, p: nat)
    requires
        p <= a.len(),
        p <= b.len(),
        a.subrange(0, p as int) == b.subrange(0, p as int),
    ensures
        osa(a, b, p, p) == 0,
{
    lemma_osa_diagonal(a, b, 0, 0, p);
    lemma_osa_bounds(a, b, p, p);
}

/// One edit costs one: substituting a character or swapping two adjacent
/// ones gives a text at distance at most 1, and inserting or deleting a
/// character gives a text at distance exactly 1.
pub proof fn lemma_single_edit(a: Seq<char>, p: int, x: char)
    ensures
        0 <= p < a.len() ==> edit_distance(a, a.update(p, x)) <= 1,
        0 <= p <= a.len() ==> edit_distance(a, a.insert(p, x)) == 1,
        0 <= p < a.len() ==> edit_distance(a, a.remove(p)) == 1,
        0 <= p && p + 1 < a.len() ==> edit_distance(a, a.update(p, a[p + 1]).update(p + 1, a[p]))
            <= 1,
{
    let n = a.len();
    if 0 <= p < n {
        let b = a.update(p, x);
        assert(a.subrange(0, p) =~= b.subrange(0, p));
        assert(a.subrange(p + 1, n as int) =~= b.subrange(p + 1, n as int));
        lemma_osa_common_prefix(a, b, p as nat);
        assert(osa(a, b, (p + 1) as nat, (p + 1) as nat) <= 1);
        lemma_osa_diagonal(a, b, (p + 1) as nat, (p + 1) as nat, (n - p - 1) as nat);
    }
    if 0 <= p <= n {
        let b = a.insert(p, x);
        assert(a.subrange(0, p) =~= b.subrange(0, p));
        assert(a.subrange(p, n as int) =~= b.subrange(p + 1, (n + 1) as int));
        lemma_osa_common_prefix(a, b, p as nat);
        assert(osa(a, b, p as nat, (p + 1) as nat) <= 1);
        lemma_osa_diagonal(a, b, p as nat, (p + 1) as nat, (n - p) as nat);
        lemma_osa_length_gap(a, b, n, b.len());
    }
    if 0 <= p < n {
        let b = a.remove(p);
        let c = b.insert(p, a[p]);
        assert(c =~= a);
        let bl = b.len() as int;
        assert(b.subrange(0, p) =~= c.subrange(0, p));
        assert(b.subrange(p, bl) =~= c.subrange(p + 1, bl + 1));
        lemma_osa_common_prefix(b, c, p as nat);
        assert(osa(b, c, p as nat, (p + 1) as nat) <= 1);
        lemma_osa_diagonal(b, c, p as nat, (p + 1) as nat, (bl - p) as nat);
        lemma_osa_length_gap(b, c, b.len(), c.len());
        lemma_osa_symmetric(b, c, b.len(), c.len());
    }
    if 0 <= p && p + 1 < n {
        let b = a.update(p, a[p + 1]).update(p + 1, a[p]);
        assert(a.subrange(0, p) =~= b.subrange(0, p));
        assert(a.subrange(p + 2, n as int) =~= b.subrange(p + 2, n as int));
        lemma_osa_common_prefix(a, b, p as nat);
        assert(osa(a, b, (p + 2) as nat, (p + 2) as nat) <= 1);
        lemma_osa_diagonal(a, b, (p + 2) as nat, (p + 2) as nat, (n - p - 2) as nat);
    }
}

fn cell(
    a: &Vec<char>,
    b: &Vec<char>,
    rows: &Vec<Vec<usize>>,
    row: &Vec<usize>,
) -> (v: usize)
    requires
        rows@.len() <= a@.len(),
        row@.len() <= b@.len(),
        forall|r: int| #![trigger rows@[r]] 0 <= r < rows@.len() ==> rows@[r]@.len() == b@.len() + 1,
        forall|r: int, c: int|
            0 <= r < rows@.len() && 0 <= c <= b@.len() ==> #[trigger] rows@[r]@[c] == osa(
                a@,
                b@,
                r as nat,
                c as nat,
            ),
        forall|c: int| 0 <= c < row@.len() ==> #[trigger] row@[c] == osa(
            a@,
            b@,
            rows@.len(),
            c as nat,
        ),
    ensures
        v == osa(a@, b@, rows@.len(), row@.len()),
{
    let i = rows.len();
    let j = row.len();
    proof {
        lemma_osa_bounds(a@, b@, i as nat, j as nat);
    }
    if i == 0 {
        return j;
    }
    if j == 0 {
        return i;
    }
    let up = rows[i - 1][j];
    let left = row[j - 1];
    let diag = rows[i - 1][j - 1];
    proof {
        lemma_osa_bounds(a@, b@, (i - 1) as nat, (j - 1) as nat);
        lemma_osa_bounds(a@, b@, (i - 1) as nat, j as nat);
        lemma_osa_bounds(a@, b@, i as nat, (j - 1) as nat);
    }
    let cost: usize = if a[i - 1] == b[j - 1] { 0 } else { 1 };
    let mut best = up.saturating_add(1);
    let l1 = left.saturating_add(1);
    if l1 < best {
        best = l1;
    }
    let d = diag + cost;
    if d < best {
        best = d;
    }
    if i > 1 && j > 1 && a[i - 1] == b[j - 2] && a[i - 2] == b[j - 1] {
        proof {
            lemma_osa_bounds(a@, b@, (i - 2) as nat, (j - 2) as nat);
        }
        let t = rows[i - 2][j - 2] + 1;
        if t < best {
            best = t;
        }
    }
    best
}

fn distance_chars(a: &Vec<char>, b: &Vec<char>) -> (d: usize)
    ensures
        d == edit_distance(a@, b@),
{
    let n = a.len();
    let m = b.len();
    let mut rows: Vec<Vec<usize>> = Vec::new();
    while rows.len() <= n
        invariant
            n == a@.len(),
            m == b@.len(),
            rows@.len() <= n + 1,
            forall|r: int| #![trigger rows@[r]] 0 <= r < rows@.len() ==> rows@[r]@.len() == m + 1,
            forall|r: int, c: int|
                0 <= r < rows@.len() && 0 <= c <= m ==> #[trigger] rows@[r]@[c] == osa(
                    a@,
                    b@,
                    r as nat,
                    c as nat,
                ),
        decreases n + 1 - rows@.len(),
    {
        let mut row: Vec<usize> = Vec::new();
        while row.len() <= m
            invariant
                n == a@.len(),
                m == b@.len(),
                rows@.len() <= n,
                row@.len() <= m + 1,
                forall|r: int| #![trigger rows@[r]] 0 <= r < rows@.len() ==> rows@[r]@.len() == m
                    + 1,
                forall|r: int, c: int|
                    0 <= r < rows@.len() && 0 <= c <= m ==> #[trigger] rows@[r]@[c] == osa(
                        a@,
                        b@,
                        r as nat,
                        c as nat,
                    ),
                forall|c: int| 0 <= c < row@.len() ==> #[trigger] row@[c] == osa(
                    a@,
                    b@,
                    rows@.len(),
                    c as nat,
                ),
            decreases m + 1 - row@.len(),
        {
            let v = cell(a, b, &rows, &row);
            row.push(v);
        }
        rows.push(row);
    }
    rows[n][m]
}

/// The optimal-string-alignment distance between two texts, counted in characters.
pub fn damerau_levenshtein(left: &str, right: &str) -> (d: usize)
    ensures
        d == edit_distance(left@, right@),
{
    let a = chars_of(left);
    let b = chars_of(right);
    distance_chars(&a, &b)
}

// ---------------------------------------------------------------------------
// Judging an answer
// ---------------------------------------------------------------------------

/// The number of typos tolerated against an accepted answer of `len` characters.
pub open spec fn typo_tolerance(len: nat) -> nat {
    if len <= 3 {
        0
    } else if len <= 8 {
        1
    } else {
        2
    }
}

/// `accepted` accepts an answer whose normal form is `candidate`.
pub open spec fn accepts(accepted: Seq<char>, candidate: Seq<char>) -> bool {
    let target = normalized(accepted);
    edit_distance(candidate, target) <= typo_tolerance(target.len())
}

/// Some accepted answer accepts `text`.
pub open spec fn accepted_by(accepted_answers: Seq<Seq<char>>, text: Seq<char>) -> bool {
    exists|k: int| 0 <= k < accepted_answers.len() && accepts(#[trigger] accepted_answers[k], normalized(text))
}

/// Whether `answer` answers `question` correctly: the chosen option is the
/// correct one, or the text is within tolerance of some accepted answer;
/// an answer of the other kind is never correct.
pub open spec fn answer_correct(question: QuestionView, answer: AnswerView) -> bool {
    match (question, answer) {
        (
            QuestionView::MultipleChoice { correct_option_id, .. },
            AnswerView::MultipleChoice { option_id },
        ) => option_id == correct_option_id,
        (QuestionView::FreeText { accepted_answers, .. }, AnswerView::FreeText { text }) =>
            accepted_by(accepted_answers, text),
        _ => false,
    }
}

fn tolerance(len: usize) -> (t: usize)
    ensures
        t == typo_tolerance(len as nat),
{
    if len <= 3 {
        0
    } else if len <= 8 {
        1
    } else {
        2
    }
}

/// Whether `answer` is a correct answer to `question`.
pub fn answer_is_correct(question: &Question, answer: &SubmittedAnswer) -> (r: bool)
    ensures
        r == answer_correct(question@, answer@),
{
    match question {
        Question::MultipleChoice { correct_option_id, .. } => match answer {
            SubmittedAnswer::MultipleChoice { option_id } => same_text(
                option_id.as_str(),
                correct_option_id.as_str(),
            ),
            SubmittedAnswer::FreeText { .. } => false,
        },
        Question::FreeText { accepted_answers, .. } => match answer {
            SubmittedAnswer::MultipleChoice { .. } => false,
            SubmittedAnswer::FreeText { text } => accepted_by_any(accepted_answers, text.as_str()),
        },
    }
}

/// Whether some accepted answer accepts `text`.
fn accepted_by_any(accepted_answers: &Vec<String>, text: &str) -> (r: bool)
    ensures
        r == accepted_by(accepted_answers.deep_view(), text@),
{
    let candidate = normalize_answer(text);
    let cand = chars_of(candidate.as_str());
    let ghost accepted = accepted_answers.deep_view();
    let mut k: usize = 0;
    while k < accepted_answers.len()
        invariant
            k <= accepted.len(),
            accepted == accepted_answers.deep_view(),
            cand@ == normalized(text@),
            forall|q: int| 0 <= q < k ==> !accepts(#[trigger] accepted[q], normalized(text@)),
        decreases accepted.len() - k,
    {
        let target = normalize_answer(accepted_answers[k].as_str());
        let tgt = chars_of(target.as_str());
        let length = tgt.len();
        let distance = distance_chars(&cand, &tgt);
        if distance <= tolerance(length) {
            assert(accepts(accepted[k as int], normalized(text@)));
            return true;
        }
        k = k + 1;
    }
    false
}

/// An answer whose normal form equals that of an accepted answer is
/// correct: the tolerance only ever widens what matches.
pub proof fn lemma_normal_form_match_is_correct(question: QuestionView, text: Seq<char>, k: int)
    requires
        question is FreeText,
        0 <= k < question->accepted_answers.len(),
        normalized(text) == normalized(question->accepted_answers[k]),
    ensures
        answer_correct(question, AnswerView::FreeText { text }),
{
    let t = normalized(text);
    lemma_osa_identical(t, t.len());
    assert(accepts(question->accepted_answers[k], t));
}

/// A free-text answer is correct exactly when its normal form is within
/// the typo tolerance of some accepted answer's normal form, the tolerance
/// being set by the accepted answer's length alone: no edit for up to 3
/// characters, one for 4 to 8, two beyond. So against accepted answers of
/// at most 3 characters (in normal form), only an identical normal form is
/// correct, however long the submitted text is.
pub proof fn lemma_free_text_judgement(question: QuestionView, text: Seq<char>)
    requires
        question is FreeText,
    ensures
        answer_correct(question, AnswerView::FreeText { text }) <==> exists|k: int|
            0 <= k < question->accepted_answers.len() && ({
                let target = normalized(#[trigger] question->accepted_answers[k]);
                let d = edit_distance(normalized(text), target);
                if target.len() <= 3 {
                    d == 0
                } else if target.len() <= 8 {
                    d <= 1
                } else {
                    d <= 2
                }
            }),
        (forall|k: int|
            0 <= k < question->accepted_answers.len() ==> #[trigger] normalized(
                question->accepted_answers[k],
            ).len() <= 3) ==> (answer_correct(question, AnswerView::FreeText { text }) <==> exists|k: int|
            0 <= k < question->accepted_answers.len() && normalized(text) == normalized(
                #[trigger] question->accepted_answers[k],
            )),
{
    let acc = question->accepted_answers;
    let t = normalized(text);
    assert forall|k: int| 0 <= k < acc.len() implies (accepts(#[trigger] acc[k], t) <==> ({
        let target = normalized(acc[k]);
        let d = edit_distance(t, target);
        if target.len() <= 3 {
            d == 0
        } else if target.len() <= 8 {
            d <= 1
        } else {
            d <= 2
        }
    })) && (normalized(acc[k]).len() <= 3 ==> (accepts(acc[k], t) <==> t == normalized(acc[k]))) by {
        lemma_edit_distance_laws(t, normalized(acc[k]));
    }
}

/// Choosing the correct option is always correct, and choosing any other is not.
pub proof fn lemma_choice_correct_iff(question: QuestionView, option_id: Seq<char>)
    requires
        question is MultipleChoice,
    ensures
        answer_correct(question, AnswerView::MultipleChoice { option_id }) <==> option_id
            == question->correct_option_id,
{
}

} // verus!
