//! Character-sequence model and helpers shared by the library-file logic.
//!
//! Text is modelled as a `Seq<char>`. The library files this crate edits are
//! UTF-8, and every marker it searches for starts with `(`, so a search over
//! characters finds the same places as a search over bytes would.

use vstd::prelude::*;

verus! {

// ---------------------------------------------------------------------------
// Searching
// ---------------------------------------------------------------------------

/// `m` occurs in `s` starting at index `i`.
pub open spec fn occurs_at(s: Seq<char>, m: Seq<char>, i: int) -> bool {
    &&& 0 <= i
    &&& i + m.len() <= s.len()
    &&& s.subrange(i, i + m.len()) == m
}

/// The first index `k` with `i <= k <= s.len()` at which `m` occurs in `s`.
pub open spec fn find_from(s: Seq<char>, m: Seq<char>, i: int) -> Option<int>
    decreases s.len() + 1 - i,
{
    if i > s.len() {
        None
    } else if occurs_at(s, m, i) {
        Some(i)
    } else {
        find_from(s, m, i + 1)
    }
}

/// Index of the first occurrence of `m` in `s`.
pub open spec fn find(s: Seq<char>, m: Seq<char>) -> Option<int> {
    find_from(s, m, 0)
}

/// `m` occurs somewhere in `s`.
pub open spec fn contains(s: Seq<char>, m: Seq<char>) -> bool {
    find(s, m) is Some
}

proof fn lemma_find_from(s: Seq<char>, m: Seq<char>, i: int)
    requires
        0 <= i,
    ensures
        match find_from(s, m, i) {
            Some(k) => i <= k && occurs_at(s, m, k) && forall|j: int|
                i <= j < k ==> !occurs_at(s, m, j),
            None => forall|j: int| i <= j ==> !occurs_at(s, m, j),
        },
    decreases s.len() + 1 - i,
{
    if i <= s.len() && !occurs_at(s, m, i) {
        lemma_find_from(s, m, i + 1);
    }
}

proof fn lemma_find_from_at(s: Seq<char>, m: Seq<char>, i: int, k: int)
    requires
        0 <= i <= k,
        occurs_at(s, m, k),
        forall|j: int| i <= j < k ==> !occurs_at(s, m, j),
    ensures
        find_from(s, m, i) == Some(k),
    decreases k - i,
{
    if i < k {
        lemma_find_from_at(s, m, i + 1, k);
    }
}

/// The first occurrence of `m` in `s` is at `k` when `m` occurs at `k` and
/// at no earlier index.
pub proof fn lemma_find_is(s: Seq<char>, m: Seq<char>, k: int)
    requires
        occurs_at(s, m, k),
        forall|j: int| 0 <= j < k ==> !occurs_at(s, m, j),
    ensures
        find(s, m) == Some(k),
{
    lemma_find_from_at(s, m, 0, k);
}

/// What `find` says of the places where `m` occurs.
pub proof fn lemma_find(s: Seq<char>, m: Seq<char>)
    ensures
        match find(s, m) {
            Some(k) => occurs_at(s, m, k) && forall|j: int| 0 <= j < k ==> !occurs_at(s, m, j),
            None => forall|j: int| !occurs_at(s, m, j),
        },
{
    lemma_find_from(s, m, 0);
}

/// An occurrence anywhere makes `contains` true.
pub proof fn lemma_occurs_contains(s: Seq<char>, m: Seq<char>, i: int)
    requires
        occurs_at(s, m, i),
    ensures
        contains(s, m),
{
    lemma_find(s, m);
}

// ---------------------------------------------------------------------------
// Parenthesis balance
// ---------------------------------------------------------------------------

/// How a character changes the nesting depth.
pub open spec fn paren_delta(c: char) -> int {
    if c == '(' {
        1
    } else if c == ')' {
        -1
    } else {
        0
    }
}

/// Number of `(` minus number of `)` in `s`.
pub open spec fn paren_depth(s: Seq<char>) -> int
    decreases s.len(),
{
    if s.len() == 0 {
        0
    } else {
        paren_depth(s.drop_last()) + paren_delta(s.last())
    }
}

/// Depth is additive over concatenation.
pub proof fn lemma_depth_concat(a: Seq<char>, b: Seq<char>)
    ensures
        paren_depth(a + b) == paren_depth(a) + paren_depth(b),
    decreases b.len(),
{
    if b.len() > 0 {
        assert((a + b).drop_last() =~= a + b.drop_last());
        lemma_depth_concat(a, b.drop_last());
    } else {
        assert(a + b =~= a);
    }
}

/// `s` holds no parenthesis.
pub open spec fn paren_free(s: Seq<char>) -> bool {
    forall|i: int| 0 <= i < s.len() ==> #[trigger] s[i] != '(' && s[i] != ')'
}

/// No prefix of `s` closes more parentheses than it opens.
pub open spec fn never_below_zero(s: Seq<char>) -> bool {
    forall|j: int| 0 <= j <= s.len() ==> paren_depth(#[trigger] s.subrange(0, j)) >= 0
}

/// `s` in a pair of parentheses.
pub open spec fn wrap(s: Seq<char>) -> Seq<char> {
    seq!['('] + s + seq![')']
}

pub proof fn lemma_paren_free_depth(s: Seq<char>)
    requires
        paren_free(s),
    ensures
        paren_depth(s) == 0,
    decreases s.len(),
{
    if s.len() > 0 {
        assert(paren_free(s.drop_last())) by {
            assert forall|i: int| 0 <= i < s.drop_last().len() implies #[trigger] s.drop_last()[i]
                != '(' && s.drop_last()[i] != ')' by {
                assert(s.drop_last()[i] == s[i]);
            }
        }
        lemma_paren_free_depth(s.drop_last());
    }
}

pub proof fn lemma_paren_free(s: Seq<char>)
    requires
        paren_free(s),
    ensures
        paren_depth(s) == 0,
        never_below_zero(s),
{
    lemma_paren_free_depth(s);
    assert forall|j: int| 0 <= j <= s.len() implies paren_depth(#[trigger] s.subrange(0, j))
        >= 0 by {
        assert(paren_free(s.subrange(0, j))) by {
            assert forall|i: int| 0 <= i < j implies #[trigger] s.subrange(0, j)[i] != '('
                && s.subrange(0, j)[i] != ')' by {
                assert(s.subrange(0, j)[i] == s[i]);
            }
        }
        lemma_paren_free_depth(s.subrange(0, j));
    }
}

pub proof fn lemma_never_below_concat(a: Seq<char>, b: Seq<char>)
    requires
        never_below_zero(a),
        never_below_zero(b),
    ensures
        never_below_zero(a + b),
{
    assert(a.subrange(0, a.len() as int) =~= a);
    assert(paren_depth(a.subrange(0, a.len() as int)) >= 0);
    assert forall|j: int| 0 <= j <= (a + b).len() implies paren_depth(
        #[trigger] (a + b).subrange(0, j),
    ) >= 0 by {
        if j <= a.len() {
            assert((a + b).subrange(0, j) =~= a.subrange(0, j));
        } else {
            let k = j - a.len();
            assert((a + b).subrange(0, j) =~= a + b.subrange(0, k));
            lemma_depth_concat(a, b.subrange(0, k));
            assert(paren_depth(b.subrange(0, k)) >= 0);
        }
    }
}

pub proof fn lemma_depth_single(c: char)
    ensures
        paren_depth(seq![c]) == paren_delta(c),
{
    assert(seq![c].drop_last() =~= Seq::<char>::empty());
    assert(paren_depth(Seq::<char>::empty()) == 0);
    assert(seq![c].last() == c);
}

/// A group `(s)` around a never-negative balanced `s` is balanced and closes
/// exactly at its end.
pub proof fn lemma_wrap(s: Seq<char>)
    requires
        never_below_zero(s),
        paren_depth(s) == 0,
    ensures
        paren_depth(wrap(s)) == 0,
        never_below_zero(wrap(s)),
        block_end(wrap(s), 0) == Some(wrap(s).len() as int),
{
    let w = wrap(s);
    let open = seq!['('];
    let close = seq![')'];
    lemma_depth_single('(');
    lemma_depth_single(')');
    lemma_depth_concat(open, s);
    lemma_depth_concat(open + s, close);
    assert(w.subrange(0, w.len() as int) =~= w);
    assert forall|j: int| 1 <= j < w.len() implies paren_depth(#[trigger] w.subrange(0, j))
        >= 1 by {
        assert(w.subrange(0, j) =~= open + s.subrange(0, j - 1));
        lemma_depth_concat(open, s.subrange(0, j - 1));
    }
    assert forall|j: int| 0 <= j <= w.len() implies paren_depth(#[trigger] w.subrange(0, j))
        >= 0 by {
        if j == 0 {
            assert(w.subrange(0, 0) =~= Seq::<char>::empty());
        } else if j < w.len() {
        }
    }
    assert(closes_at(w, 0, w.len() as int));
    assert forall|j: int| 0 < j < w.len() implies !closes_at(w, 0, j) by {
        assert(paren_depth(w.subrange(0, j)) >= 1);
    }
    lemma_block_end_is(w, 0, w.len() as int);
}

/// `s` is balanced and no prefix of it closes more than it opens.
pub open spec fn well_nested(s: Seq<char>) -> bool {
    never_below_zero(s) && paren_depth(s) == 0
}

pub proof fn lemma_well_nested_concat(a: Seq<char>, b: Seq<char>)
    requires
        well_nested(a),
        well_nested(b),
    ensures
        well_nested(a + b),
{
    lemma_never_below_concat(a, b);
    lemma_depth_concat(a, b);
}

pub proof fn lemma_never_below_prefix(s: Seq<char>, k: int)
    requires
        never_below_zero(s),
        0 <= k <= s.len(),
    ensures
        never_below_zero(s.subrange(0, k)),
{
    assert forall|j: int| 0 <= j <= k implies paren_depth(#[trigger] s.subrange(0, k).subrange(0, j))
        >= 0 by {
        assert(s.subrange(0, k).subrange(0, j) =~= s.subrange(0, j));
    }
}

/// Replacing a middle part `b` of never-negative text by never-negative `t`
/// of the same depth keeps the text never-negative.
pub proof fn lemma_splice_never_below(a: Seq<char>, b: Seq<char>, c: Seq<char>, t: Seq<char>)
    requires
        never_below_zero(a + b + c),
        never_below_zero(t),
        paren_depth(t) == paren_depth(b),
    ensures
        never_below_zero(a + t + c),
{
    let x = a + b + c;
    let y = a + t + c;
    assert(x.subrange(0, a.len() as int) =~= a);
    assert(paren_depth(x.subrange(0, a.len() as int)) >= 0);
    assert forall|j: int| 0 <= j <= y.len() implies paren_depth(#[trigger] y.subrange(0, j))
        >= 0 by {
        if j <= a.len() {
            assert(y.subrange(0, j) =~= x.subrange(0, j));
        } else if j <= a.len() + t.len() {
            let i = j - a.len();
            assert(y.subrange(0, j) =~= a + t.subrange(0, i));
            lemma_depth_concat(a, t.subrange(0, i));
            assert(paren_depth(t.subrange(0, i)) >= 0);
        } else {
            let i = j - a.len() - t.len();
            assert(y.subrange(0, j) =~= (a + t) + c.subrange(0, i));
            assert(x.subrange(0, a.len() + b.len() + i) =~= (a + b) + c.subrange(0, i));
            lemma_depth_concat(a + t, c.subrange(0, i));
            lemma_depth_concat(a + b, c.subrange(0, i));
            lemma_depth_concat(a, t);
            lemma_depth_concat(a, b);
            assert(paren_depth(x.subrange(0, a.len() + b.len() + i)) >= 0);
        }
    }
}

/// Appending text whose prefixes go no lower than `-k` to never-negative
/// text of depth at least `k` keeps it never-negative.
pub proof fn lemma_never_below_shift(a: Seq<char>, b: Seq<char>, k: int)
    requires
        never_below_zero(a),
        paren_depth(a) >= k,
        forall|j: int| 0 <= j <= b.len() ==> paren_depth(#[trigger] b.subrange(0, j)) >= -k,
    ensures
        never_below_zero(a + b),
{
    assert forall|j: int| 0 <= j <= (a + b).len() implies paren_depth(
        #[trigger] (a + b).subrange(0, j),
    ) >= 0 by {
        if j <= a.len() {
            assert((a + b).subrange(0, j) =~= a.subrange(0, j));
        } else {
            assert((a + b).subrange(0, j) =~= a + b.subrange(0, j - a.len()));
            lemma_depth_concat(a, b.subrange(0, j - a.len()));
            assert(paren_depth(b.subrange(0, j - a.len())) >= -k);
        }
    }
}

/// Every prefix of `p)q`, with `p` and `q` free of parentheses, has depth at
/// least -1.
pub proof fn lemma_close_prefixes(p: Seq<char>, q: Seq<char>)
    requires
        paren_free(p),
        paren_free(q),
    ensures
        forall|j: int|
            0 <= j <= (p + seq![')'] + q).len() ==> paren_depth(
                #[trigger] (p + seq![')'] + q).subrange(0, j),
            ) >= -1,
{
    let s = p + seq![')'] + q;
    lemma_paren_free(p);
    lemma_paren_free(q);
    lemma_depth_single(')');
    assert forall|j: int| 0 <= j <= s.len() implies paren_depth(#[trigger] s.subrange(0, j))
        >= -1 by {
        if j <= p.len() {
            assert(s.subrange(0, j) =~= p.subrange(0, j));
            assert(paren_depth(p.subrange(0, j)) >= 0);
        } else {
            let i = j - p.len() - 1;
            assert(s.subrange(0, j) =~= p + seq![')'] + q.subrange(0, i));
            assert(paren_free(q.subrange(0, i))) by {
                assert forall|n: int| 0 <= n < i implies #[trigger] q.subrange(0, i)[n] != '('
                    && q.subrange(0, i)[n] != ')' by {
                    assert(q.subrange(0, i)[n] == q[n]);
                }
            }
            lemma_paren_free_depth(q.subrange(0, i));
            lemma_depth_concat(p, seq![')']);
            lemma_depth_concat(p + seq![')'], q.subrange(0, i));
        }
    }
}

/// `(` on its own never goes below zero and has depth 1.
pub proof fn lemma_open_alone()
    ensures
        never_below_zero(seq!['(']),
        paren_depth(seq!['(']) == 1,
{
    lemma_depth_single('(');
    assert forall|j: int| 0 <= j <= 1 implies paren_depth(#[trigger] seq!['('].subrange(0, j))
        >= 0 by {
        if j == 0 {
            assert(seq!['('].subrange(0, 0) =~= Seq::<char>::empty());
        } else {
            assert(seq!['('].subrange(0, 1) =~= seq!['(']);
        }
    }
}

/// Closing inside a copy of `b` placed at `off` in `x` is closing in `b`.
pub proof fn lemma_closes_shift(x: Seq<char>, b: Seq<char>, off: int, j: int)
    requires
        0 <= off,
        off + b.len() <= x.len(),
        x.subrange(off, off + b.len()) == b,
        0 < j <= b.len(),
    ensures
        closes_at(x, off, off + j) == closes_at(b, 0, j),
{
    assert(x.subrange(off, off + j) =~= b.subrange(0, j));
    assert(x[off + j - 1] == b[j - 1]);
}

/// A block that closes exactly at its end still does so when copied into a
/// larger text.
pub proof fn lemma_block_end_shift(x: Seq<char>, b: Seq<char>, off: int)
    requires
        0 <= off,
        off + b.len() <= x.len(),
        x.subrange(off, off + b.len()) == b,
        block_end(b, 0) == Some(b.len() as int),
    ensures
        block_end(x, off) == Some(off + b.len()),
{
    lemma_block_end(b, 0);
    lemma_closes_shift(x, b, off, b.len() as int);
    assert forall|j: int| off < j < off + b.len() implies !closes_at(x, off, j) by {
        lemma_closes_shift(x, b, off, j - off);
    }
    lemma_block_end_is(x, off, off + b.len());
}

/// Read from `start`, the block that starts there is closed by the `)` at
/// index `j - 1`: the text `s[start..j]` ends with `)` and is balanced.
pub open spec fn closes_at(s: Seq<char>, start: int, j: int) -> bool {
    &&& start < j <= s.len()
    &&& s[j - 1] == ')'
    &&& paren_depth(s.subrange(start, j)) == 0
}

/// The first `j` with `from <= j <= s.len()` at which the block starting at
/// `start` closes.
pub open spec fn close_from(s: Seq<char>, start: int, from: int) -> Option<int>
    decreases s.len() + 1 - from,
{
    if from > s.len() {
        None
    } else if closes_at(s, start, from) {
        Some(from)
    } else {
        close_from(s, start, from + 1)
    }
}

/// End (exclusive) of the balanced block that starts at `start`: just past
/// the first `)` that brings the depth back to zero.
pub open spec fn block_end(s: Seq<char>, start: int) -> Option<int> {
    close_from(s, start, start + 1)
}

/// Range `[start, end)` of the first balanced block of `s` that begins with
/// marker `m`: found at the first occurrence of `m`, and absent when that
/// block is never closed.
pub open spec fn balanced_block(s: Seq<char>, m: Seq<char>) -> Option<(int, int)> {
    match find(s, m) {
        Some(start) => match block_end(s, start) {
            Some(end) => Some((start, end)),
            None => None,
        },
        None => None,
    }
}

proof fn lemma_close_from(s: Seq<char>, start: int, from: int)
    ensures
        match close_from(s, start, from) {
            Some(e) => from <= e && closes_at(s, start, e) && forall|j: int|
                from <= j < e ==> !closes_at(s, start, j),
            None => forall|j: int| from <= j ==> !closes_at(s, start, j),
        },
    decreases s.len() + 1 - from,
{
    if from <= s.len() && !closes_at(s, start, from) {
        lemma_close_from(s, start, from + 1);
    }
}

proof fn lemma_close_from_at(s: Seq<char>, start: int, from: int, e: int)
    requires
        from <= e,
        closes_at(s, start, e),
        forall|j: int| from <= j < e ==> !closes_at(s, start, j),
    ensures
        close_from(s, start, from) == Some(e),
    decreases e - from,
{
    if from < e {
        lemma_close_from_at(s, start, from + 1, e);
    }
}

pub proof fn lemma_block_end(s: Seq<char>, start: int)
    ensures
        match block_end(s, start) {
            Some(e) => closes_at(s, start, e) && forall|j: int|
                start < j < e ==> !closes_at(s, start, j),
            None => forall|j: int| !closes_at(s, start, j),
        },
{
    lemma_close_from(s, start, start + 1);
}

pub proof fn lemma_block_end_is(s: Seq<char>, start: int, e: int)
    requires
        closes_at(s, start, e),
        forall|j: int| start < j < e ==> !closes_at(s, start, j),
    ensures
        block_end(s, start) == Some(e),
{
    lemma_close_from_at(s, start, start + 1, e);
}

/// What `balanced_block` says of the range it gives.
pub proof fn lemma_balanced_block(s: Seq<char>, m: Seq<char>)
    ensures
        match balanced_block(s, m) {
            Some((start, end)) => {
                &&& find(s, m) == Some(start)
                &&& occurs_at(s, m, start)
                &&& block_end(s, start) == Some(end)
                &&& closes_at(s, start, end)
                &&& 0 <= start < end <= s.len()
            },
            None => true,
        },
{
    lemma_find(s, m);
    if let Some(start) = find(s, m) {
        lemma_block_end(s, start);
    }
}

/// The first balanced block of marker `m` is `[s, e)` when `m` first
/// occurs at `s` and the block there first closes at `e`.
pub proof fn lemma_balanced_block_is(t: Seq<char>, m: Seq<char>, s: int, e: int)
    requires
        occurs_at(t, m, s),
        forall|j: int| 0 <= j < s ==> !occurs_at(t, m, j),
        closes_at(t, s, e),
        forall|j: int| s < j < e ==> !closes_at(t, s, j),
    ensures
        balanced_block(t, m) == Some((s, e)),
{
    lemma_find_is(t, m, s);
    lemma_block_end_is(t, s, e);
}

/// There is no balanced block of marker `m` when no block that begins at an
/// occurrence of `m` ever closes.
pub proof fn lemma_balanced_block_none(t: Seq<char>, m: Seq<char>)
    requires
        forall|j: int, e: int| occurs_at(t, m, j) ==> !closes_at(t, j, e),
    ensures
        balanced_block(t, m) is None,
{
    lemma_find(t, m);
    if let Some(s) = find(t, m) {
        lemma_block_end(t, s);
        if let Some(e) = block_end(t, s) {
            assert(closes_at(t, s, e));
        }
    }
}

// ---------------------------------------------------------------------------
// Trailing whitespace and the last `)`
// ---------------------------------------------------------------------------

/// Unicode `White_Space`, the property by which `char::is_whitespace` and
/// `str::trim_end` decide.
pub open spec fn is_white_space(c: char) -> bool {
    let n = c as u32;
    ||| 0x9 <= n <= 0xd
    ||| n == 0x20
    ||| n == 0x85
    ||| n == 0xa0
    ||| n == 0x1680
    ||| 0x2000 <= n <= 0x200a
    ||| n == 0x2028
    ||| n == 0x2029
    ||| n == 0x202f
    ||| n == 0x205f
    ||| n == 0x3000
}

/// Whether `c` has the Unicode `White_Space` property (what
/// `char::is_whitespace` and `str::trim` go by).
pub fn is_white_space_char(c: char) -> (r: bool)
    ensures
        r == is_white_space(c),
{
    let n = c as u32;
    (0x9 <= n && n <= 0xd) || n == 0x20 || n == 0x85 || n == 0xa0 || n == 0x1680 || (0x2000 <= n
        && n <= 0x200a) || n == 0x2028 || n == 0x2029 || n == 0x202f || n == 0x205f || n == 0x3000
}

/// `s` without its trailing whitespace.
pub open spec fn trim_end(s: Seq<char>) -> Seq<char>
    decreases s.len(),
{
    if s.len() > 0 && is_white_space(s.last()) {
        trim_end(s.drop_last())
    } else {
        s
    }
}

/// `s` without its leading whitespace.
pub open spec fn trim_start(s: Seq<char>) -> Seq<char>
    decreases s.len(),
{
    if s.len() > 0 && is_white_space(s[0]) {
        trim_start(s.drop_first())
    } else {
        s
    }
}

/// `s` without leading and trailing whitespace.
pub open spec fn trim(s: Seq<char>) -> Seq<char> {
    trim_start(trim_end(s))
}

/// Index of the last `c` in `s`.
pub open spec fn last_index_of(s: Seq<char>, c: char) -> Option<int>
    decreases s.len(),
{
    if s.len() == 0 {
        None
    } else if s.last() == c {
        Some(s.len() - 1)
    } else {
        last_index_of(s.drop_last(), c)
    }
}

/// `t` with `piece` inserted at its insertion point.
pub open spec fn insert_before_close(t: Seq<char>, piece: Seq<char>) -> Seq<char> {
    let k = insertion_point(t);
    t.subrange(0, k) + piece + t.subrange(k, t.len() as int)
}

/// Where new content goes in a file whose text (trailing whitespace
/// removed) is `t`: before its last `)`, or at its end if it has none.
pub open spec fn insertion_point(t: Seq<char>) -> int {
    match last_index_of(t, ')') {
        Some(k) => k,
        None => t.len() as int,
    }
}

pub proof fn lemma_trim_end_prefix(s: Seq<char>)
    ensures
        trim_end(s).len() <= s.len(),
        trim_end(s) == s.subrange(0, trim_end(s).len() as int),
        paren_depth(trim_end(s)) == paren_depth(s),
    decreases s.len(),
{
    if s.len() > 0 && is_white_space(s.last()) {
        lemma_trim_end_prefix(s.drop_last());
        let t = trim_end(s.drop_last());
        assert(s.drop_last().subrange(0, t.len() as int) =~= s.subrange(0, t.len() as int));
    } else {
        assert(s.subrange(0, s.len() as int) =~= s);
    }
}

pub proof fn lemma_last_index_of(s: Seq<char>, c: char)
    ensures
        match last_index_of(s, c) {
            Some(k) => 0 <= k < s.len() && s[k] == c && forall|j: int| k < j < s.len() ==> s[j] != c,
            None => forall|j: int| 0 <= j < s.len() ==> s[j] != c,
        },
    decreases s.len(),
{
    if s.len() > 0 && s.last() != c {
        lemma_last_index_of(s.drop_last(), c);
        assert forall|j: int| 0 <= j < s.len() - 1 implies s.drop_last()[j] == s[j] by {}
    }
}

pub proof fn lemma_insertion_point(t: Seq<char>)
    ensures
        0 <= insertion_point(t) <= t.len(),
{
    lemma_last_index_of(t, ')');
}

/// Trailing whitespace of `t` starts at `n`: everything from `n` on is
/// whitespace and the character before `n`, if any, is not.
pub open spec fn trailing_space_from(t: Seq<char>, n: int) -> bool {
    &&& 0 <= n <= t.len()
    &&& forall|i: int| n <= i < t.len() ==> is_white_space(#[trigger] t[i])
    &&& (n == 0 || !is_white_space(t[n - 1]))
}

/// `k` is the index of the last `)` in `t[..n]`, or `n` when there is none.
pub open spec fn last_close_in(t: Seq<char>, n: int, k: int) -> bool {
    ||| (0 <= k < n && t[k] == ')' && forall|j: int| k < j < n ==> #[trigger] t[j] != ')')
    ||| (k == n && forall|j: int| 0 <= j < n ==> #[trigger] t[j] != ')')
}

/// Trimming keeps exactly the text before the trailing whitespace.
pub proof fn lemma_trim_end_is(t: Seq<char>, n: int)
    requires
        trailing_space_from(t, n),
    ensures
        trim_end(t) == t.subrange(0, n),
    decreases t.len(),
{
    if t.len() > n {
        assert(is_white_space(t[t.len() - 1]));
        assert(trailing_space_from(t.drop_last(), n)) by {
            assert forall|i: int| n <= i < t.drop_last().len() implies is_white_space(
                #[trigger] t.drop_last()[i],
            ) by {
                assert(t.drop_last()[i] == t[i]);
            }
            if n > 0 {
                assert(t.drop_last()[n - 1] == t[n - 1]);
            }
        }
        lemma_trim_end_is(t.drop_last(), n);
        assert(t.drop_last().subrange(0, n) =~= t.subrange(0, n));
    } else {
        assert(t.subrange(0, n) =~= t);
    }
}

/// The insertion point of the trimmed text is the last `)` before the
/// trailing whitespace, or where that whitespace starts.
pub proof fn lemma_insertion_point_is(t: Seq<char>, n: int, k: int)
    requires
        trailing_space_from(t, n),
        last_close_in(t, n, k),
    ensures
        trim_end(t) == t.subrange(0, n),
        insertion_point(trim_end(t)) == k,
        0 <= k <= n,
{
    lemma_trim_end_is(t, n);
    let tr = t.subrange(0, n);
    lemma_last_index_of(tr, ')');
    match last_index_of(tr, ')') {
        Some(k2) => {
            if k == n {
                assert(tr[k2] == t[k2]);
            } else if k2 < k {
                assert(tr[k] == t[k]);
            } else if k < k2 {
                assert(tr[k2] == t[k2]);
            }
        },
        None => {
            if k < n {
                assert(tr[k] == t[k]);
            }
        },
    }
}

// ---------------------------------------------------------------------------
// Executable helpers
// ---------------------------------------------------------------------------

/// Copies the characters of `s` into a vector.
pub fn chars_of(s: &str) -> (v: Vec<char>)
    ensures
        v@ == s@,
{
    let mut v: Vec<char> = Vec::new();
    for c in it: s.chars()
        invariant
            v@ == it.seq().take(it.index() as int),
            it.seq() == s@,
    {
        v.push(c);
    }
    v
}

/// Appends the characters of `s` to `out`.
pub fn push_str(out: &mut Vec<char>, s: &str)
    ensures
        final(out)@ == old(out)@ + s@,
{
    let ghost start = out@;
    for c in it: s.chars()
        invariant
            out@ == start + it.seq().take(it.index() as int),
            it.seq() == s@,
    {
        out.push(c);
    }
    assert(s@.take(s@.len() as int) =~= s@);
}

/// Appends `src[from..to]` to `out`.
pub fn push_range(out: &mut Vec<char>, src: &Vec<char>, from: usize, to: usize)
    requires
        from <= to <= src.len(),
    ensures
        final(out)@ == old(out)@ + src@.subrange(from as int, to as int),
{
    let ghost start = out@;
    let mut i = from;
    while i < to
        invariant
            from <= i <= to <= src.len(),
            out@ == start + src@.subrange(from as int, i as int),
        decreases to - i,
    {
        out.push(src[i]);
        assert(src@.subrange(from as int, i + 1) =~= src@.subrange(from as int, i as int).push(
            src@[i as int],
        ));
        i += 1;
    }
}

/// Trusted: collecting a slice's characters into a `String` (std's
/// `FromIterator<&char>` for `String`) gives a string made of exactly those
/// characters, in order.
#[verifier::external_body]
pub fn string_from_chars(chars: &Vec<char>) -> (s: String)
    ensures
        s@ == chars@,
{
    chars.iter().collect()
}

/// Whether `m` occurs in `text` at `i`.
fn occurs_at_exec(text: &Vec<char>, m: &Vec<char>, i: usize) -> (r: bool)
    requires
        i + m.len() <= text.len(),
    ensures
        r == occurs_at(text@, m@, i as int),
{
    let mut k: usize = 0;
    while k < m.len()
        invariant
            k <= m.len(),
            i + m.len() <= text.len(),
            forall|t: int| 0 <= t < k ==> text@[i + t] == m@[t],
        decreases m.len() - k,
    {
        if text[i + k] != m[k] {
            assert(text@.subrange(i as int, i + m.len())[k as int] != m@[k as int]);
            return false;
        }
        k += 1;
    }
    assert(text@.subrange(i as int, i + m.len()) =~= m@);
    true
}

/// Index of the first occurrence of `m` in `text`.
pub fn find_exec(text: &Vec<char>, m: &Vec<char>) -> (r: Option<usize>)
    ensures
        match r {
            Some(k) => find(text@, m@) == Some(k as int),
            None => find(text@, m@) is None,
        },
{
    let n = text.len();
    let mlen = m.len();
    if mlen > n {
        proof {
            lemma_find(text@, m@);
        }
        return None;
    }
    if mlen == 0 {
        proof {
            assert(text@.subrange(0, 0) =~= m@);
            lemma_find_is(text@, m@, 0);
        }
        return Some(0);
    }
    let mut i: usize = 0;
    while i <= n - mlen
        invariant
            n == text.len(),
            mlen == m.len(),
            1 <= mlen <= n,
            i <= n - mlen + 1,
            forall|j: int| 0 <= j < i ==> !occurs_at(text@, m@, j),
        decreases n - mlen + 1 - i,
    {
        if occurs_at_exec(text, m, i) {
            proof {
                lemma_find_is(text@, m@, i as int);
            }
            return Some(i);
        }
        i += 1;
    }
    proof {
        lemma_find(text@, m@);
        if let Some(k) = find(text@, m@) {
            assert(occurs_at(text@, m@, k));
        }
    }
    None
}

/// End (exclusive) of the balanced block of `text` that starts at `start`.
pub fn block_end_exec(text: &Vec<char>, start: usize) -> (r: Option<usize>)
    requires
        start <= text.len(),
    ensures
        match r {
            Some(e) => block_end(text@, start as int) == Some(e as int),
            None => block_end(text@, start as int) is None,
        },
{
    let n = text.len();
    let mut depth: i128 = 0;
    let mut i: usize = start;
    assert(text@.subrange(start as int, start as int) =~= Seq::<char>::empty());
    while i < n
        invariant
            start <= i <= n,
            n == text.len(),
            depth == paren_depth(text@.subrange(start as int, i as int)),
            -(i - start) <= depth <= i - start,
            forall|j: int| start < j <= i ==> !closes_at(text@, start as int, j),
        decreases n - i,
    {
        let c = text[i];
        assert(text@.subrange(start as int, i + 1).drop_last() =~= text@.subrange(
            start as int,
            i as int,
        ));
        if c == '(' {
            depth = depth + 1;
        } else if c == ')' {
            depth = depth - 1;
            if depth == 0 {
                proof {
                    lemma_block_end_is(text@, start as int, i + 1);
                }
                return Some(i + 1);
            }
        }
        i += 1;
    }
    proof {
        lemma_block_end(text@, start as int);
        if let Some(e) = block_end(text@, start as int) {
            assert(closes_at(text@, start as int, e));
        }
    }
    None
}

/// Range of the first balanced block of `text` that begins with `marker`.
pub fn find_balanced_block(text: &Vec<char>, marker: &Vec<char>) -> (r: Option<(usize, usize)>)
    ensures
        match r {
            Some((s, e)) => balanced_block(text@, marker@) == Some((s as int, e as int)),
            None => balanced_block(text@, marker@) is None,
        },
{
    match find_exec(text, marker) {
        Some(start) => {
            proof {
                lemma_find(text@, marker@);
            }
            match block_end_exec(text, start) {
                Some(end) => Some((start, end)),
                None => None,
            }
        },
        None => None,
    }
}

/// Length of `text` once its trailing whitespace is removed.
pub fn trimmed_len(text: &Vec<char>) -> (r: usize)
    ensures
        r <= text.len(),
        text@.subrange(0, r as int) == trim_end(text@),
{
    let mut k = text.len();
    assert(text@.subrange(0, k as int) =~= text@);
    while k > 0 && is_white_space_char(text[k - 1])
        invariant
            k <= text.len(),
            trim_end(text@.subrange(0, k as int)) == trim_end(text@),
        decreases k,
    {
        assert(text@.subrange(0, k as int).drop_last() =~= text@.subrange(0, k - 1));
        k -= 1;
    }
    k
}

/// Index of the last `c` in `text[..n]`.
pub fn last_index_before(text: &Vec<char>, n: usize, c: char) -> (r: Option<usize>)
    requires
        n <= text.len(),
    ensures
        match r {
            Some(k) => last_index_of(text@.subrange(0, n as int), c) == Some(k as int),
            None => last_index_of(text@.subrange(0, n as int), c) is None,
        },
{
    let mut k = n;
    while k > 0
        invariant
            k <= n <= text.len(),
            last_index_of(text@.subrange(0, k as int), c) == last_index_of(
                text@.subrange(0, n as int),
                c,
            ),
        decreases k,
    {
        assert(text@.subrange(0, k as int).drop_last() =~= text@.subrange(0, k - 1));
        if text[k - 1] == c {
            return Some(k - 1);
        }
        k -= 1;
    }
    None
}

/// `text` with its trailing whitespace removed and `piece` inserted before
/// its last `)` (or at its end when it has none).
pub fn insert_before_close_exec(text: &Vec<char>, piece: &Vec<char>) -> (r: Vec<char>)
    ensures
        r@ == insert_before_close(trim_end(text@), piece@),
{
    let n = trimmed_len(text);
    let ghost t = trim_end(text@);
    proof {
        lemma_insertion_point(t);
    }
    let k = match last_index_before(text, n, ')') {
        Some(k) => k,
        None => n,
    };
    assert(k == insertion_point(t));
    let mut out: Vec<char> = Vec::new();
    push_range(&mut out, text, 0, k);
    push_range(&mut out, piece, 0, piece.len());
    push_range(&mut out, text, k, n);
    assert(t.subrange(0, k as int) =~= text@.subrange(0, k as int));
    assert(t.subrange(k as int, t.len() as int) =~= text@.subrange(k as int, n as int));
    assert(piece@.subrange(0, piece@.len() as int) =~= piece@);
    assert(out@ =~= insert_before_close(t, piece@));
    out
}

/// Range `[from, to)` of `text` that is left once leading and trailing
/// whitespace is removed.
pub fn trimmed_range(text: &Vec<char>) -> (r: (usize, usize))
    ensures
        r.0 <= r.1 <= text.len(),
        text@.subrange(r.0 as int, r.1 as int) == trim(text@),
{
    let end = trimmed_len(text);
    let ghost t = trim_end(text@);
    let mut start: usize = 0;
    assert(t.subrange(0, t.len() as int) =~= t);
    while start < end && is_white_space_char(text[start])
        invariant
            start <= end <= text.len(),
            t == text@.subrange(0, end as int),
            trim_start(t.subrange(start as int, end as int)) == trim_start(t),
        decreases end - start,
    {
        assert(t.subrange(start as int, end as int).drop_first() =~= t.subrange(
            start + 1,
            end as int,
        ));
        start += 1;
    }
    assert(t.subrange(start as int, end as int) =~= text@.subrange(start as int, end as int));
    (start, end)
}

/// Whether `text` starts with `prefix`.
pub fn starts_with(text: &Vec<char>, prefix: &Vec<char>) -> (r: bool)
    ensures
        r == (prefix.len() <= text.len() && text@.subrange(0, prefix.len() as int) == prefix@),
{
    if prefix.len() > text.len() {
        return false;
    }
    occurs_at_exec(text, prefix, 0)
}

/// Whether `a` and `b` hold the same characters.
pub fn same_chars(a: &Vec<char>, b: &Vec<char>) -> (r: bool)
    ensures
        r == (a@ == b@),
{
    if a.len() != b.len() {
        return false;
    }
    assert(a@.subrange(0, b.len() as int) =~= a@);
    starts_with(a, b)
}

} // verus!
