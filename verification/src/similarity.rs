//! Near-duplicate similarity scoring.
//!
//! Candidate files are compared in two stages: a cheap Jaccard pre-filter
//! over word-shingle sets, and, for pairs above threshold, a Smith-Waterman
//! local-alignment score over the raw bytes.  Scores are exact ratios of
//! integers; no floating point is involved.

use vstd::prelude::*;

use crate::text::{byte_is_ws, contains_bytes, copy_bytes, copy_range, is_ws};

verus! {

/// Largest content size, in bytes, that takes part in similarity scoring.
pub const MAX_FILE_SIZE: usize = 102400;

/// Length of the leading run of non-whitespace bytes of `s`.
pub open spec fn run_len(s: Seq<u8>) -> int
    decreases s.len(),
{
    if s.len() == 0 || is_ws(s.first()) {
        0
    } else {
        1 + run_len(s.drop_first())
    }
}

proof fn lemma_run_len_bounds(s: Seq<u8>)
    ensures
        0 <= run_len(s) <= s.len(),
        s.len() > 0 && !is_ws(s.first()) ==> run_len(s) >= 1,
    decreases s.len(),
{
    if s.len() > 0 && !is_ws(s.first()) {
        lemma_run_len_bounds(s.drop_first());
    }
}

/// The whitespace-separated tokens of `s`, in order.
pub open spec fn tokens_of(s: Seq<u8>) -> Seq<Seq<u8>>
    decreases s.len(),
    via tokens_of_decreases
{
    if s.len() == 0 {
        Seq::empty()
    } else if is_ws(s.first()) {
        tokens_of(s.drop_first())
    } else {
        seq![s.take(run_len(s))] + tokens_of(s.skip(run_len(s)))
    }
}

#[via_fn]
proof fn tokens_of_decreases(s: Seq<u8>) {
    if s.len() > 0 && !is_ws(s.first()) {
        lemma_run_len_bounds(s);
    }
}

/// A token takes at least one byte, so there are at most `s.len()` tokens.
pub proof fn lemma_tokens_len_le(s: Seq<u8>)
    ensures
        tokens_of(s).len() <= s.len(),
    decreases s.len(),
{
    if s.len() == 0 {
    } else if is_ws(s.first()) {
        lemma_tokens_len_le(s.drop_first());
    } else {
        lemma_run_len_bounds(s);
        lemma_tokens_len_le(s.skip(run_len(s)));
    }
}

proof fn lemma_run_len_at(t: Seq<u8>, r: int)
    requires
        0 <= r <= t.len(),
        forall|k: int| 0 <= k < r ==> !is_ws(t[k]),
        r == t.len() || is_ws(t[r]),
    ensures
        run_len(t) == r,
    decreases t.len(),
{
    if r == 0 {
    } else {
        assert(!is_ws(t.first()));
        lemma_run_len_at(t.drop_first(), r - 1);
    }
}

/// The whitespace-separated tokens of `content`; see [`tokens_of`].
pub fn tokenize(content: &Vec<u8>) -> (r: Vec<Vec<u8>>)
    ensures
        r.deep_view() == tokens_of(content@),
{
    let mut r: Vec<Vec<u8>> = Vec::new();
    proof {
        assert(content@.skip(0) =~= content@);
        assert(r.deep_view() =~= Seq::<Seq<u8>>::empty());
        assert(Seq::<Seq<u8>>::empty() + tokens_of(content@) =~= tokens_of(content@));
    }
    let mut i: usize = 0;
    while i < content.len()
        invariant
            i <= content.len(),
            tokens_of(content@) == r.deep_view() + tokens_of(content@.skip(i as int)),
        decreases content.len() - i,
    {
        if byte_is_ws(content[i]) {
            proof {
                assert(content@.skip(i as int).drop_first() =~= content@.skip(i + 1 as int));
            }
            i += 1;
        } else {
            let start = i;
            let mut j: usize = i + 1;
            while j < content.len() && !byte_is_ws(content[j])
                invariant
                    start < j <= content.len(),
                    forall|k: int| start < k < j ==> !is_ws(content@[k]),
                decreases content.len() - j,
            {
                j += 1;
            }
            let tok = copy_range(content, start, j);
            proof {
                let t = content@.skip(start as int);
                assert(forall|k: int|
                    0 <= k < j - start ==> t[k] == content@[start + k] && !is_ws(t[k]));
                if j < content@.len() {
                    assert(is_ws(t[j - start]));
                }
                lemma_run_len_at(t, j - start);
                assert(t.take(j - start) =~= content@.subrange(start as int, j as int));
                assert(t.skip(j - start) =~= content@.skip(j as int));
                assert(tokens_of(t) == seq![tok@] + tokens_of(content@.skip(j as int)));
            }
            let ghost old_r = r.deep_view();
            let ghost tokv = tok@;
            r.push(tok);
            proof {
                assert forall|k: int|
                    0 <= k < r@.len() implies r.deep_view()[k] == old_r.push(tokv)[k] by {
                    assert(r.deep_view()[k] == r@[k]@);
                }
                assert(r.deep_view() =~= old_r.push(tokv));
                assert(old_r.push(tokv) =~= old_r + seq![tokv]);
                assert((old_r + seq![tokv]) + tokens_of(content@.skip(j as int)) =~= old_r + (
                seq![tokv] + tokens_of(content@.skip(j as int))));
            }
            i = j;
        }
    }
    proof {
        assert(content@.skip(content@.len() as int) =~= Seq::<u8>::empty());
        assert(r.deep_view() + Seq::<Seq<u8>>::empty() =~= r.deep_view());
    }
    r
}

/// The shingle length for content of `len` bytes: `len / 50`, clamped to
/// the range 2 to 10.
pub open spec fn shingle_len_of(len: int) -> int {
    if len / 50 < 2 {
        2
    } else if len / 50 > 10 {
        10
    } else {
        len / 50
    }
}

/// Words joined by single spaces.
pub open spec fn joined(ws: Seq<Seq<u8>>) -> Seq<u8>
    decreases ws.len(),
{
    if ws.len() == 0 {
        Seq::empty()
    } else if ws.len() == 1 {
        ws[0]
    } else {
        joined(ws.drop_last()) + seq![32u8] + ws.last()
    }
}

/// One shingle per window of `k` consecutive words.
pub open spec fn windows_of(ws: Seq<Seq<u8>>, k: int) -> Seq<Seq<u8>> {
    if k <= 0 || ws.len() < k {
        Seq::empty()
    } else {
        Seq::new((ws.len() - k + 1) as nat, |i: int| joined(ws.subrange(i, i + k)))
    }
}

/// `s` with every repeated byte string removed, keeping first occurrences.
pub open spec fn dedup(s: Seq<Seq<u8>>) -> Seq<Seq<u8>>
    decreases s.len(),
{
    if s.len() == 0 {
        Seq::empty()
    } else {
        let d = dedup(s.drop_last());
        if d.contains(s.last()) {
            d
        } else {
            d.push(s.last())
        }
    }
}

pub proof fn lemma_dedup_len_le(s: Seq<Seq<u8>>)
    ensures
        dedup(s).len() <= s.len(),
    decreases s.len(),
{
    if s.len() > 0 {
        lemma_dedup_len_le(s.drop_last());
    }
}

/// Deduplication keeps exactly the elements, without repetition.
pub proof fn lemma_dedup_membership(s: Seq<Seq<u8>>)
    ensures
        forall|x: Seq<u8>| dedup(s).contains(x) <==> s.contains(x),
        dedup(s).no_duplicates(),
    decreases s.len(),
{
    if s.len() > 0 {
        lemma_dedup_membership(s.drop_last());
        let d = dedup(s.drop_last());
        assert forall|x: Seq<u8>| s.contains(x) implies dedup(s).contains(x) by {
            let k = choose|k: int| 0 <= k < s.len() && s[k] == x;
            if k < s.len() - 1 {
                assert(s.drop_last()[k] == x);
                assert(s.drop_last().contains(x));
                if !d.contains(s.last()) {
                    assert(dedup(s) == d.push(s.last()));
                    let m = choose|m: int| 0 <= m < d.len() && d[m] == x;
                    assert(dedup(s)[m] == x);
                }
            } else {
                if !d.contains(s.last()) {
                    assert(dedup(s).last() == x);
                } else {
                    assert(d.contains(x));
                    if !d.contains(s.last()) {
                    }
                }
            }
        }
        assert forall|x: Seq<u8>| dedup(s).contains(x) implies s.contains(x) by {
            if !d.contains(s.last()) {
                let m = choose|m: int| 0 <= m < dedup(s).len() && dedup(s)[m] == x;
                if m < d.len() {
                    assert(d[m] == x);
                    assert(s.drop_last().contains(x));
                    let k = choose|k: int| 0 <= k < s.drop_last().len() && s.drop_last()[k] == x;
                    assert(s[k] == x);
                } else {
                    assert(x == s.last());
                    assert(s[s.len() - 1] == x);
                }
            } else {
                assert(d.contains(x));
                let k0 = choose|k0: int| 0 <= k0 < d.len() && d[k0] == x;
                assert(s.drop_last().contains(x));
                let k = choose|k: int| 0 <= k < s.drop_last().len() && s.drop_last()[k] == x;
                assert(s[k] == x);
            }
        }
        if !d.contains(s.last()) {
            assert(dedup(s).drop_last() =~= d);
        }
    }
}

/// The distinct word-shingles of `content`, in first-appearance order.
pub open spec fn shingles_of(content: Seq<u8>) -> Seq<Seq<u8>> {
    dedup(windows_of(tokens_of(content), shingle_len_of(content.len() as int)))
}

/// There are no more shingles than bytes of content.
pub proof fn lemma_shingles_len_le(content: Seq<u8>)
    ensures
        shingles_of(content).len() <= content.len(),
{
    let ws = tokens_of(content);
    let k = shingle_len_of(content.len() as int);
    lemma_tokens_len_le(content);
    lemma_dedup_len_le(windows_of(ws, k));
}

/// The words `from..to` joined with single spaces; see [`joined`].
fn join_words(words: &Vec<Vec<u8>>, from: usize, to: usize) -> (r: Vec<u8>)
    requires
        from < to <= words@.len(),
    ensures
        r@ == joined(words.deep_view().subrange(from as int, to as int)),
{
    let ghost wsv = words.deep_view();
    let mut r = copy_bytes(&words[from]);
    proof {
        assert(wsv[from as int] == words@[from as int]@);
        assert(wsv.subrange(from as int, from + 1 as int) =~= seq![wsv[from as int]]);
        assert(joined(seq![wsv[from as int]]) == wsv[from as int]);
    }
    let mut j: usize = from + 1;
    while j < to
        invariant
            from < j <= to <= words@.len(),
            words.deep_view() == wsv,
            r@ == joined(wsv.subrange(from as int, j as int)),
        decreases to - j,
    {
        r.push(32);
        proof {
            assert(wsv[j as int] == words@[j as int]@);
        }
        crate::text::extend_bytes(&mut r, &words[j]);
        proof {
            let sub1 = wsv.subrange(from as int, j + 1 as int);
            assert(sub1.drop_last() =~= wsv.subrange(from as int, j as int));
            assert(sub1.last() == wsv[j as int]);
            assert(r@ =~= joined(sub1.drop_last()) + seq![32u8] + sub1.last());
        }
        j += 1;
    }
    r
}

/// The distinct word-shingles of `content`, in first-appearance order;
/// see [`shingles_of`].
pub fn build_shingles(content: &Vec<u8>) -> (r: Vec<Vec<u8>>)
    ensures
        r.deep_view() == shingles_of(content@),
        r.deep_view().no_duplicates(),
{
    let words = tokenize(content);
    let k = {
        let s = content.len() / 50;
        if s < 2 {
            2
        } else if s > 10 {
            10
        } else {
            s
        }
    };
    let ghost wsv = words.deep_view();
    let ghost kk = shingle_len_of(content@.len() as int);
    proof {
        assert(kk == k as int);
    }
    let mut r: Vec<Vec<u8>> = Vec::new();
    if words.len() < k {
        proof {
            assert(windows_of(wsv, kk) =~= Seq::<Seq<u8>>::empty());
            assert(r.deep_view() =~= dedup(windows_of(wsv, kk)));
            lemma_dedup_membership(windows_of(wsv, kk));
        }
        return r;
    }
    let ghost win = windows_of(wsv, kk);
    let n = words.len();
    let last_start = n - k;
    let mut i: usize = 0;
    proof {
        assert(win.take(0) =~= Seq::<Seq<u8>>::empty());
        assert(r.deep_view() =~= dedup(win.take(0)));
    }
    while i <= last_start
        invariant
            i <= last_start + 1,
            n == words@.len(),
            last_start == n - k,
            k >= 2,
            k <= n,
            words.deep_view() == wsv,
            win == windows_of(wsv, kk),
            kk == k as int,
            win.len() == last_start + 1,
            r.deep_view() == dedup(win.take(i as int)),
        decreases last_start + 1 - i,
    {
        let sh = join_words(&words, i, i + k);
        proof {
            assert(win[i as int] == joined(wsv.subrange(i as int, i + k)));
            assert(win.take(i + 1 as int).drop_last() =~= win.take(i as int));
            assert(win.take(i + 1 as int).last() == win[i as int]);
        }
        if !contains_bytes(&r, &sh) {
            let ghost old_r = r.deep_view();
            let ghost shv = sh@;
            r.push(sh);
            proof {
                assert forall|q: int|
                    0 <= q < r@.len() implies r.deep_view()[q] == old_r.push(shv)[q] by {
                    assert(r.deep_view()[q] == r@[q]@);
                }
                assert(r.deep_view() =~= old_r.push(shv));
                assert(r.deep_view() =~= dedup(win.take(i + 1 as int)));
            }
        } else {
            proof {
                assert(r.deep_view() =~= dedup(win.take(i + 1 as int)));
            }
        }
        i += 1;
    }
    proof {
        assert(win.take(win.len() as int) =~= win);
        lemma_dedup_membership(win);
    }
    r
}

/// How many byte strings of `a` also occur in `b`.
pub open spec fn count_in(a: Seq<Seq<u8>>, b: Seq<Seq<u8>>) -> int
    decreases a.len(),
{
    if a.len() == 0 {
        0
    } else {
        count_in(a.drop_last(), b) + if b.contains(a.last()) {
            1int
        } else {
            0int
        }
    }
}

pub proof fn lemma_count_in_le(a: Seq<Seq<u8>>, b: Seq<Seq<u8>>)
    ensures
        0 <= count_in(a, b) <= a.len(),
    decreases a.len(),
{
    if a.len() > 0 {
        lemma_count_in_le(a.drop_last(), b);
    }
}

proof fn lemma_count_in_all(a: Seq<Seq<u8>>, b: Seq<Seq<u8>>)
    requires
        forall|k: int| 0 <= k < a.len() ==> b.contains(#[trigger] a[k]),
    ensures
        count_in(a, b) == a.len(),
    decreases a.len(),
{
    if a.len() > 0 {
        lemma_count_in_all(a.drop_last(), b);
    }
}

/// The Jaccard numerator of two shingle lists: how many strings they
/// share.  For duplicate-free lists this is the cardinality of the
/// intersection of the two sets.
pub open spec fn jaccard_num(a: Seq<Seq<u8>>, b: Seq<Seq<u8>>) -> int {
    count_in(a, b)
}

/// The Jaccard denominator of two shingle lists.  For duplicate-free lists
/// this is the cardinality of the union of the two sets.
pub open spec fn jaccard_den(a: Seq<Seq<u8>>, b: Seq<Seq<u8>>) -> int {
    a.len() + b.len() - count_in(b, a)
}

/// Jaccard bounds: the similarity lies between 0 and 1, it is exactly 1
/// for a nonempty list against itself, and exactly 0 against an empty
/// list.
pub proof fn lemma_jaccard_bounds(a: Seq<Seq<u8>>, b: Seq<Seq<u8>>)
    ensures
        0 <= jaccard_num(a, b),
        jaccard_num(a, b) <= jaccard_den(a, b),
        a.len() > 0 ==> jaccard_num(a, a) == jaccard_den(a, a) && jaccard_den(a, a) > 0,
        jaccard_num(a, Seq::<Seq<u8>>::empty()) == 0,
{
    lemma_count_in_le(a, b);
    lemma_count_in_le(b, a);
    assert forall|k: int| 0 <= k < a.len() implies a.contains(#[trigger] a[k]) by {}
    lemma_count_in_all(a, a);
    lemma_count_in_le(a, Seq::<Seq<u8>>::empty());
    if a.len() > 0 {
        assert(count_in(a, Seq::<Seq<u8>>::empty()) == count_in(
            a.drop_last(),
            Seq::<Seq<u8>>::empty(),
        ));
    }
    lemma_count_in_empty(a);
}

proof fn lemma_count_in_empty(a: Seq<Seq<u8>>)
    ensures
        count_in(a, Seq::<Seq<u8>>::empty()) == 0,
    decreases a.len(),
{
    if a.len() > 0 {
        lemma_count_in_empty(a.drop_last());
    }
}

/// The larger of two integers.
pub open spec fn max2(x: int, y: int) -> int {
    if x >= y {
        x
    } else {
        y
    }
}

/// The Smith-Waterman cell value for the prefixes of length `i` of `a` and
/// `j` of `b`: the best score of a local alignment ending exactly there,
/// with match +3, mismatch -1, gap -2, clamped at 0.
pub open spec fn sw_cell(a: Seq<u8>, b: Seq<u8>, i: int, j: int) -> int
    decreases i + j,
{
    if i <= 0 || j <= 0 {
        0
    } else {
        let diag = sw_cell(a, b, i - 1, j - 1) + if a[i - 1] == b[j - 1] {
            3int
        } else {
            -1int
        };
        let up = sw_cell(a, b, i - 1, j) - 2;
        let left = sw_cell(a, b, i, j - 1) - 2;
        max2(0, max2(diag, max2(up, left)))
    }
}

/// The largest cell value in row `i`, columns 0 through `j`.
pub open spec fn sw_row_max(a: Seq<u8>, b: Seq<u8>, i: int, j: int) -> int
    decreases j,
{
    if j <= 0 {
        0
    } else {
        max2(sw_row_max(a, b, i, j - 1), sw_cell(a, b, i, j))
    }
}

/// The largest cell value in rows 0 through `i`.
pub open spec fn sw_rows_max(a: Seq<u8>, b: Seq<u8>, i: int) -> int
    decreases i,
{
    if i <= 0 {
        0
    } else {
        max2(sw_rows_max(a, b, i - 1), sw_row_max(a, b, i, b.len() as int))
    }
}

/// The best Smith-Waterman local-alignment score of `a` and `b`.
pub open spec fn sw_max(a: Seq<u8>, b: Seq<u8>) -> int {
    sw_rows_max(a, b, a.len() as int)
}

proof fn lemma_sw_cell_bounds(a: Seq<u8>, b: Seq<u8>, i: int, j: int)
    ensures
        0 <= sw_cell(a, b, i, j),
        i >= 0 ==> sw_cell(a, b, i, j) <= 3 * i,
        j >= 0 ==> sw_cell(a, b, i, j) <= 3 * j,
    decreases i + j,
{
    if i > 0 && j > 0 {
        lemma_sw_cell_bounds(a, b, i - 1, j - 1);
        lemma_sw_cell_bounds(a, b, i - 1, j);
        lemma_sw_cell_bounds(a, b, i, j - 1);
    }
}

/// Every cell is symmetric in its two sequences.
proof fn lemma_sw_cell_sym(a: Seq<u8>, b: Seq<u8>, i: int, j: int)
    ensures
        sw_cell(a, b, i, j) == sw_cell(b, a, j, i),
    decreases i + j,
{
    if i > 0 && j > 0 {
        lemma_sw_cell_sym(a, b, i - 1, j - 1);
        lemma_sw_cell_sym(a, b, i - 1, j);
        lemma_sw_cell_sym(a, b, i, j - 1);
    }
}

proof fn lemma_sw_row_max_ge(a: Seq<u8>, b: Seq<u8>, i: int, j: int, jj: int)
    requires
        0 <= j <= jj,
    ensures
        sw_row_max(a, b, i, jj) >= sw_cell(a, b, i, j),
        sw_row_max(a, b, i, jj) >= 0,
    decreases jj,
{
    if jj > 0 {
        if j == jj {
            lemma_sw_row_max_ge(a, b, i, 0, jj - 1);
        } else {
            lemma_sw_row_max_ge(a, b, i, j, jj - 1);
        }
    } else {
        lemma_sw_cell_bounds(a, b, i, 0);
    }
}

proof fn lemma_sw_row0_max(a: Seq<u8>, b: Seq<u8>, j: int)
    ensures
        sw_row_max(a, b, 0, j) == 0,
    decreases j,
{
    if j > 0 {
        lemma_sw_row0_max(a, b, j - 1);
    }
}

proof fn lemma_sw_rows_max_ge(a: Seq<u8>, b: Seq<u8>, i: int, ii: int)
    requires
        0 <= i <= ii,
    ensures
        sw_rows_max(a, b, ii) >= sw_row_max(a, b, i, b.len() as int),
        sw_rows_max(a, b, ii) >= 0,
    decreases ii,
{
    if ii > 0 {
        if i == ii {
            lemma_sw_rows_max_ge(a, b, 0, ii - 1);
        } else {
            lemma_sw_rows_max_ge(a, b, i, ii - 1);
        }
    } else {
        lemma_sw_row0_max(a, b, b.len() as int);
    }
}

/// The best score dominates every cell.
proof fn lemma_sw_max_ge_cell(a: Seq<u8>, b: Seq<u8>, i: int, j: int)
    requires
        0 <= i <= a.len(),
        0 <= j <= b.len(),
    ensures
        sw_max(a, b) >= sw_cell(a, b, i, j),
        sw_max(a, b) >= 0,
{
    lemma_sw_row_max_ge(a, b, i, j, b.len() as int);
    lemma_sw_rows_max_ge(a, b, i, a.len() as int);
}

proof fn lemma_sw_row_max_witness(a: Seq<u8>, b: Seq<u8>, i: int, j: int)
    requires
        j >= 0,
    ensures
        exists|jj: int|
            0 <= jj <= j && sw_row_max(a, b, i, j) == #[trigger] sw_cell(a, b, i, jj),
    decreases j,
{
    if j <= 0 {
        assert(sw_cell(a, b, i, 0) == 0);
    } else {
        lemma_sw_row_max_witness(a, b, i, j - 1);
    }
}

proof fn lemma_sw_rows_max_witness(a: Seq<u8>, b: Seq<u8>, i: int)
    requires
        i >= 0,
    ensures
        exists|ii: int, jj: int|
            0 <= ii <= i && 0 <= jj <= b.len() && sw_rows_max(a, b, i) == #[trigger] sw_cell(
                a,
                b,
                ii,
                jj,
            ),
    decreases i,
{
    if i <= 0 {
        assert(sw_cell(a, b, 0, 0) == 0);
    } else {
        lemma_sw_rows_max_witness(a, b, i - 1);
        lemma_sw_row_max_witness(a, b, i, b.len() as int);
    }
}

/// Alignment symmetry: the best local-alignment score does not depend on
/// the order of the two sequences, so the reported score of a pair is the
/// same either way around (its denominator, three times the longer
/// length, is symmetric as well).
pub proof fn lemma_alignment_symmetric(a: Seq<u8>, b: Seq<u8>)
    ensures
        sw_max(a, b) == sw_max(b, a),
{
    lemma_sw_rows_max_witness(a, b, a.len() as int);
    let (i1, j1) = choose|ii: int, jj: int|
        0 <= ii <= a.len() && 0 <= jj <= b.len() && sw_max(a, b) == #[trigger] sw_cell(
            a,
            b,
            ii,
            jj,
        );
    lemma_sw_cell_sym(a, b, i1, j1);
    lemma_sw_max_ge_cell(b, a, j1, i1);

    lemma_sw_rows_max_witness(b, a, b.len() as int);
    let (i2, j2) = choose|ii: int, jj: int|
        0 <= ii <= b.len() && 0 <= jj <= a.len() && sw_max(b, a) == #[trigger] sw_cell(
            b,
            a,
            ii,
            jj,
        );
    lemma_sw_cell_sym(b, a, i2, j2);
    lemma_sw_max_ge_cell(a, b, j2, i2);
}

/// The best score is bounded by three points per aligned byte.
pub proof fn lemma_sw_max_bounds(a: Seq<u8>, b: Seq<u8>)
    ensures
        0 <= sw_max(a, b),
        sw_max(a, b) <= 3 * a.len(),
        sw_max(a, b) <= 3 * b.len(),
{
    lemma_sw_rows_max_witness(a, b, a.len() as int);
    let (ii, jj) = choose|ii: int, jj: int|
        0 <= ii <= a.len() && 0 <= jj <= b.len() && sw_max(a, b) == #[trigger] sw_cell(
            a,
            b,
            ii,
            jj,
        );
    lemma_sw_cell_bounds(a, b, ii, jj);
    lemma_sw_max_ge_cell(a, b, 0, 0);
}

/// The best Smith-Waterman cell value, computed with a two-row rolling
/// matrix: only the previous and the current row are kept, so memory is
/// linear in the second sequence.
fn sw_best(seq1: &Vec<u8>, seq2: &Vec<u8>) -> (best: i64)
    requires
        3 * seq1@.len() + 3 <= i64::MAX,
        3 * seq2@.len() + 3 <= i64::MAX,
    ensures
        best == sw_max(seq1@, seq2@),
{
    let ghost a = seq1@;
    let ghost b = seq2@;
    let rows = seq1.len();
    let cols = seq2.len();

    let mut prev: Vec<i64> = Vec::new();
    prev.push(0);
    let mut t: usize = 0;
    while t < cols
        invariant
            t <= cols,
            prev@.len() == t + 1,
            forall|q: int| 0 <= q <= t ==> prev@[q] == 0,
        decreases cols - t,
    {
        prev.push(0);
        t += 1;
    }

    let mut best: i64 = 0;
    let mut ip: usize = 0;
    while ip < rows
        invariant
            ip <= rows,
            rows == a.len(),
            cols == b.len(),
            a == seq1@,
            b == seq2@,
            3 * a.len() + 3 <= i64::MAX,
            3 * b.len() + 3 <= i64::MAX,
            prev@.len() == cols + 1,
            forall|q: int| 0 <= q <= cols ==> prev@[q] == sw_cell(a, b, ip as int, q),
            best == sw_rows_max(a, b, ip as int),
        decreases rows - ip,
    {
        proof {
            lemma_sw_rows_max_ge(a, b, 0, ip as int);
        }
        let mut curr: Vec<i64> = Vec::new();
        curr.push(0);
        let mut jp: usize = 0;
        while jp < cols
            invariant
                jp <= cols,
                ip < rows,
                rows == a.len(),
                cols == b.len(),
                a == seq1@,
                b == seq2@,
                3 * a.len() + 3 <= i64::MAX,
                3 * b.len() + 3 <= i64::MAX,
                prev@.len() == cols + 1,
                forall|q: int| 0 <= q <= cols ==> prev@[q] == sw_cell(a, b, ip as int, q),
                curr@.len() == jp + 1,
                forall|q: int| 0 <= q <= jp ==> curr@[q] == sw_cell(a, b, ip + 1 as int, q),
                best == max2(sw_rows_max(a, b, ip as int), sw_row_max(a, b, ip + 1 as int, jp as int)),
            decreases cols - jp,
        {
            proof {
                lemma_sw_cell_bounds(a, b, ip as int, jp as int);
                lemma_sw_cell_bounds(a, b, ip as int, jp + 1 as int);
                lemma_sw_cell_bounds(a, b, ip + 1 as int, jp as int);
            }
            let m: i64 = if seq1[ip] == seq2[jp] {
                3
            } else {
                -1
            };
            let diag = prev[jp] + m;
            let up = prev[jp + 1] - 2;
            let left = curr[jp] - 2;
            let mut val = diag;
            if up > val {
                val = up;
            }
            if left > val {
                val = left;
            }
            if val < 0 {
                val = 0;
            }
            proof {
                assert(val == sw_cell(a, b, ip + 1 as int, jp + 1 as int));
            }
            curr.push(val);
            if val > best {
                best = val;
            }
            proof {
                assert(best == max2(
                    sw_rows_max(a, b, ip as int),
                    sw_row_max(a, b, ip + 1 as int, jp + 1 as int),
                ));
            }
            jp += 1;
        }
        prev = curr;
        proof {
            assert(best == sw_rows_max(a, b, ip + 1 as int));
        }
        ip += 1;
    }
    best
}

/// How many byte strings of `a` occur in `b`; see [`count_in`].
pub fn count_shared(a: &Vec<Vec<u8>>, b: &Vec<Vec<u8>>) -> (r: usize)
    ensures
        r == count_in(a.deep_view(), b.deep_view()),
        r <= a@.len(),
{
    let ghost av = a.deep_view();
    let ghost bv = b.deep_view();
    let mut c: usize = 0;
    let mut i: usize = 0;
    while i < a.len()
        invariant
            i <= a.len(),
            a.deep_view() == av,
            b.deep_view() == bv,
            c == count_in(av.take(i as int), bv),
            c <= i,
        decreases a.len() - i,
    {
        proof {
            assert(av[i as int] == a@[i as int]@);
            assert(av.take(i + 1 as int).drop_last() =~= av.take(i as int));
            assert(av.take(i + 1 as int).last() == av[i as int]);
        }
        if contains_bytes(b, &a[i]) {
            c += 1;
        }
        i += 1;
    }
    proof {
        assert(av.take(av.len() as int) =~= av);
    }
    c
}

/// An exact nonnegative score, kept as numerator over denominator so that
/// all arithmetic stays within integers.
#[derive(Clone, Copy, Debug, PartialEq, Eq, Structural)]
pub struct Ratio {
    pub num: u64,
    pub den: u64,
}

/// A loaded candidate file: its path and its textual content.
#[derive(Clone, Debug, PartialEq, Eq)]
pub struct LoadedFile {
    pub path: Vec<u8>,
    pub content: Vec<u8>,
}

/// The mathematical model of a [`LoadedFile`].
pub struct LoadedModel {
    pub path: Seq<u8>,
    pub content: Seq<u8>,
}

impl View for LoadedFile {
    type V = LoadedModel;

    open spec fn view(&self) -> LoadedModel {
        LoadedModel { path: self.path@, content: self.content@ }
    }
}

impl DeepView for LoadedFile {
    type V = LoadedModel;

    open spec fn deep_view(&self) -> LoadedModel {
        self@
    }
}

/// One scored pair of files.
#[derive(Clone, Debug, PartialEq, Eq)]
pub struct SimilarityScore {
    pub path_a: Vec<u8>,
    pub path_b: Vec<u8>,
    /// The Jaccard pre-filter value: shared shingles over combined
    /// shingles.
    pub jaccard_prefilter: Ratio,
    /// The normalized local-alignment score: best cell over three times
    /// the longer length.  May exceed 1 for repetitive content.
    pub alignment_score: Ratio,
}

/// The mathematical model of a [`SimilarityScore`].
pub struct ScoreModel {
    pub path_a: Seq<u8>,
    pub path_b: Seq<u8>,
    pub jaccard_prefilter: Ratio,
    pub alignment_score: Ratio,
}

impl View for SimilarityScore {
    type V = ScoreModel;

    open spec fn view(&self) -> ScoreModel {
        ScoreModel {
            path_a: self.path_a@,
            path_b: self.path_b@,
            jaccard_prefilter: self.jaccard_prefilter,
            alignment_score: self.alignment_score,
        }
    }
}

impl DeepView for SimilarityScore {
    type V = ScoreModel;

    open spec fn deep_view(&self) -> ScoreModel {
        self@
    }
}

/// The candidate files that are small enough to score, in order.
pub open spec fn retained_of(fs: Seq<LoadedModel>) -> Seq<LoadedModel>
    decreases fs.len(),
{
    if fs.len() == 0 {
        Seq::empty()
    } else {
        retained_of(fs.drop_last()) + if fs.last().content.len() <= MAX_FILE_SIZE {
            seq![fs.last()]
        } else {
            Seq::<LoadedModel>::empty()
        }
    }
}

proof fn lemma_retained_bounds(fs: Seq<LoadedModel>)
    ensures
        forall|k: int|
            0 <= k < retained_of(fs).len() ==> #[trigger] retained_of(
                fs,
            )[k].content.len() <= MAX_FILE_SIZE,
    decreases fs.len(),
{
    if fs.len() > 0 {
        lemma_retained_bounds(fs.drop_last());
        let prev = retained_of(fs.drop_last());
        assert forall|k: int|
            0 <= k < retained_of(fs).len() implies #[trigger] retained_of(
            fs,
        )[k].content.len() <= MAX_FILE_SIZE by {
            if k < prev.len() {
                assert(retained_of(fs)[k] == prev[k]);
            } else {
                assert(retained_of(fs)[k] == fs.last());
            }
        }
    }
}

/// What one unordered pair contributes: an early-exit score of 1 for a
/// pair of known exact duplicates, the Jaccard value and alignment score
/// for a pair whose Jaccard similarity reaches 7/10, nothing otherwise.
pub open spec fn pair_score(x: LoadedModel, y: LoadedModel, dups: Seq<Seq<u8>>) -> Option<
    ScoreModel,
> {
    if dups.contains(x.path) && dups.contains(y.path) {
        Option::Some(
            ScoreModel {
                path_a: x.path,
                path_b: y.path,
                jaccard_prefilter: Ratio { num: 1, den: 1 },
                alignment_score: Ratio { num: 1, den: 1 },
            },
        )
    } else {
        let s1 = shingles_of(x.content);
        let s2 = shingles_of(y.content);
        if s1.len() > 0 && s2.len() > 0 && 10 * jaccard_num(s1, s2) >= 7 * jaccard_den(s1, s2) {
            Option::Some(
                ScoreModel {
                    path_a: x.path,
                    path_b: y.path,
                    jaccard_prefilter: Ratio {
                        num: jaccard_num(s1, s2) as u64,
                        den: jaccard_den(s1, s2) as u64,
                    },
                    alignment_score: Ratio {
                        num: sw_max(x.content, y.content) as u64,
                        den: (3 * max2(x.content.len() as int, y.content.len() as int)) as u64,
                    },
                },
            )
        } else {
            Option::None
        }
    }
}

/// The scores of the pairs `(i, j)` with `j` from the given start upward.
pub open spec fn row_scores(fs: Seq<LoadedModel>, dups: Seq<Seq<u8>>, i: int, j: int) -> Seq<
    ScoreModel,
>
    decreases fs.len() - j,
{
    if j < 0 || j >= fs.len() || i < 0 || i >= fs.len() {
        Seq::empty()
    } else {
        (match pair_score(fs[i], fs[j], dups) {
            Option::Some(e) => seq![e],
            Option::None => Seq::<ScoreModel>::empty(),
        }) + row_scores(fs, dups, i, j + 1)
    }
}

/// The scores of all pairs whose first index is below `i`.
pub open spec fn done_rows(fs: Seq<LoadedModel>, dups: Seq<Seq<u8>>, i: int) -> Seq<ScoreModel>
    decreases i,
{
    if i <= 0 {
        Seq::empty()
    } else {
        done_rows(fs, dups, i - 1) + row_scores(fs, dups, i - 1, i)
    }
}

/// All scored pairs of `fs`, one row per first index, in index order.
pub open spec fn similarity_scores(fs: Seq<LoadedModel>, dups: Seq<Seq<u8>>) -> Seq<ScoreModel> {
    done_rows(fs, dups, fs.len() as int)
}

/// Whether two entries name the same unordered pair of paths.
pub open spec fn same_pair(x: ScoreModel, y: ScoreModel) -> bool {
    ||| (x.path_a == y.path_a && x.path_b == y.path_b)
    ||| (x.path_a == y.path_b && x.path_b == y.path_a)
}

/// No two entries name the same unordered pair.
pub open spec fn pairs_distinct(s: Seq<ScoreModel>) -> bool {
    forall|k1: int, k2: int| 0 <= k1 < k2 < s.len() ==> !same_pair(s[k1], s[k2])
}

/// An entry of the row of `i` starting at `j0` pairs `fs[i]` with some
/// later file.
pub open spec fn row_entry_shape(
    fs: Seq<LoadedModel>,
    i: int,
    j0: int,
    e: ScoreModel,
) -> bool {
    e.path_a == fs[i].path && exists|j: int|
        j0 <= j < fs.len() && e.path_b == #[trigger] fs[j].path
}

proof fn lemma_row_scores_distinct(fs: Seq<LoadedModel>, dups: Seq<Seq<u8>>, i: int, j0: int)
    requires
        forall|a: int, b: int| 0 <= a < b < fs.len() ==> fs[a].path != fs[b].path,
        0 <= i < j0,
    ensures
        pairs_distinct(row_scores(fs, dups, i, j0)),
        forall|k: int|
            0 <= k < row_scores(fs, dups, i, j0).len() ==> row_entry_shape(
                fs,
                i,
                j0,
                #[trigger] row_scores(fs, dups, i, j0)[k],
            ),
    decreases fs.len() - j0,
{
    if j0 < 0 || j0 >= fs.len() || i >= fs.len() {
    } else {
        lemma_row_scores_distinct(fs, dups, i, j0 + 1);
        let tail = row_scores(fs, dups, i, j0 + 1);
        let whole = row_scores(fs, dups, i, j0);
        match pair_score(fs[i], fs[j0], dups) {
            Option::Some(e) => {
                assert(whole == seq![e] + tail);
                assert(whole[0] == e);
                assert(forall|k: int| 1 <= k < whole.len() ==> whole[k] == tail[k - 1]);
                assert(e.path_a == fs[i].path && e.path_b == fs[j0].path);
                assert(row_entry_shape(fs, i, j0, e));
                assert forall|k: int|
                    0 <= k < whole.len() implies row_entry_shape(fs, i, j0, #[trigger] whole[k]) by {
                    if k >= 1 {
                        assert(row_entry_shape(fs, i, j0 + 1, tail[k - 1]));
                        let j = choose|j: int|
                            j0 + 1 <= j < fs.len() && tail[k - 1].path_b == #[trigger] fs[j].path;
                        assert(j0 <= j < fs.len());
                    }
                }
                assert forall|k1: int, k2: int|
                    0 <= k1 < k2 < whole.len() implies !same_pair(whole[k1], whole[k2]) by {
                    if k1 == 0 {
                        // The head pairs with the file at this start; every
                        // tail entry pairs with a strictly later one.
                        let t = tail[k2 - 1];
                        assert(row_entry_shape(fs, i, j0 + 1, t));
                        let j = choose|j: int|
                            j0 + 1 <= j < fs.len() && t.path_b == #[trigger] fs[j].path;
                        assert(t.path_a == fs[i].path);
                        if same_pair(e, t) {
                            if e.path_a == t.path_a && e.path_b == t.path_b {
                                assert(fs[j0].path == fs[j].path);
                                assert(false);
                            } else {
                                assert(e.path_a == t.path_b && e.path_b == t.path_a);
                                assert(fs[i].path == fs[j0].path);
                                assert(false);
                            }
                        }
                    } else {
                        assert(!same_pair(tail[k1 - 1], tail[k2 - 1]));
                    }
                }
            },
            Option::None => {
                assert(whole == Seq::<ScoreModel>::empty() + tail);
                assert(whole =~= tail);
                assert forall|k: int|
                    0 <= k < whole.len() implies row_entry_shape(fs, i, j0, #[trigger] whole[k]) by {
                    assert(row_entry_shape(fs, i, j0 + 1, tail[k]));
                    let j = choose|j: int|
                        j0 + 1 <= j < fs.len() && tail[k].path_b == #[trigger] fs[j].path;
                    assert(j0 <= j < fs.len());
                }
            },
        }
    }
}

/// An entry of the rows below `i` pairs some file with a strictly later
/// one, both below `i` on the first side.
pub open spec fn done_entry_shape(fs: Seq<LoadedModel>, i: int, e: ScoreModel) -> bool {
    exists|a: int, b: int|
        0 <= a < i && a < b < fs.len() && e.path_a == #[trigger] fs[a].path && e.path_b
            == #[trigger] fs[b].path
}

proof fn lemma_done_rows_distinct(fs: Seq<LoadedModel>, dups: Seq<Seq<u8>>, i: int)
    requires
        forall|a: int, b: int| 0 <= a < b < fs.len() ==> fs[a].path != fs[b].path,
        i <= fs.len(),
    ensures
        pairs_distinct(done_rows(fs, dups, i)),
        forall|k: int|
            0 <= k < done_rows(fs, dups, i).len() ==> done_entry_shape(
                fs,
                i,
                #[trigger] done_rows(fs, dups, i)[k],
            ),
    decreases i,
{
    if i <= 0 {
    } else {
        lemma_done_rows_distinct(fs, dups, i - 1);
        if i - 1 < fs.len() {
            lemma_row_scores_distinct(fs, dups, i - 1, i);
        }
        let prev = done_rows(fs, dups, i - 1);
        let row = row_scores(fs, dups, i - 1, i);
        let whole = done_rows(fs, dups, i);
        assert(whole == prev + row);
        assert forall|k: int|
            0 <= k < whole.len() implies done_entry_shape(fs, i, #[trigger] whole[k]) by {
            if k < prev.len() {
                assert(whole[k] == prev[k]);
                assert(done_entry_shape(fs, i - 1, prev[k]));
                let (a, b) = choose|a: int, b: int|
                    0 <= a < i - 1 && a < b < fs.len() && prev[k].path_a == #[trigger] fs[a].path
                        && prev[k].path_b == #[trigger] fs[b].path;
                assert(0 <= a < i);
            } else {
                let e = row[k - prev.len()];
                assert(whole[k] == e);
                assert(row_entry_shape(fs, i - 1, i, e));
                let j = choose|j: int| i <= j < fs.len() && e.path_b == #[trigger] fs[j].path;
                assert(e.path_a == fs[i - 1].path);
                assert(0 <= i - 1 < i && i - 1 < j < fs.len());
            }
        }
        assert forall|k1: int, k2: int|
            0 <= k1 < k2 < whole.len() implies !same_pair(whole[k1], whole[k2]) by {
            if k2 < prev.len() {
                assert(!same_pair(prev[k1], prev[k2]));
            } else if k1 >= prev.len() {
                assert(!same_pair(row[k1 - prev.len()], row[k2 - prev.len()]));
            } else {
                // One entry from an earlier row, one from the row of
                // `i - 1`: their first files differ, and the later entry's
                // second file lies strictly beyond `i - 1`.
                let e1 = prev[k1];
                let e2 = row[k2 - prev.len()];
                assert(done_entry_shape(fs, i - 1, e1));
                assert(row_entry_shape(fs, i - 1, i, e2));
                let (a, b) = choose|a: int, b: int|
                    0 <= a < i - 1 && a < b < fs.len() && e1.path_a == #[trigger] fs[a].path
                        && e1.path_b == #[trigger] fs[b].path;
                let j = choose|j: int| i <= j < fs.len() && e2.path_b == #[trigger] fs[j].path;
                assert(e2.path_a == fs[i - 1].path);
                if same_pair(e1, e2) {
                    if e1.path_a == e2.path_a && e1.path_b == e2.path_b {
                        assert(fs[a].path == fs[i - 1].path);
                        assert(false);
                    } else {
                        assert(e1.path_a == e2.path_b && e1.path_b == e2.path_a);
                        assert(fs[a].path == fs[j].path);
                        assert(false);
                    }
                }
            }
        }
    }
}

/// An unordered pair is scored at most once: over files with pairwise
/// distinct paths, no two score entries name the same pair of paths, in
/// either order.
pub proof fn lemma_similarity_pairs_unique(fs: Seq<LoadedModel>, dups: Seq<Seq<u8>>)
    requires
        forall|a: int, b: int| 0 <= a < b < fs.len() ==> fs[a].path != fs[b].path,
    ensures
        pairs_distinct(similarity_scores(fs, dups)),
{
    lemma_done_rows_distinct(fs, dups, fs.len() as int);
}

/// Pairwise similarity scoring with a shared result store.
pub struct FileSimilarity {
    /// Scored pairs, appended in index order: one entry per compared pair.
    pub similarity_scores: Vec<SimilarityScore>,
}

impl FileSimilarity {
    /// An empty store.
    pub fn new() -> (r: Self)
        ensures
            r.similarity_scores.deep_view() == Seq::<ScoreModel>::empty(),
    {
        let r = FileSimilarity { similarity_scores: Vec::new() };
        proof {
            assert(r.similarity_scores.deep_view() =~= Seq::<ScoreModel>::empty());
        }
        r
    }

    /// Whether `content` is small enough to take part in scoring.
    pub fn is_relevant_size(&self, content: &Vec<u8>) -> (r: bool)
        ensures
            r == (content@.len() <= MAX_FILE_SIZE),
    {
        content.len() <= MAX_FILE_SIZE
    }

    /// The shingle length for content of this size; see [`shingle_len_of`].
    pub fn determine_shingle_size(&self, content_length: usize) -> (r: usize)
        ensures
            r == shingle_len_of(content_length as int),
    {
        let s = content_length / 50;
        if s < 2 {
            2
        } else if s > 10 {
            10
        } else {
            s
        }
    }

    /// The distinct word-shingles of `content`; see [`shingles_of`].
    pub fn shingle_file(&self, content: &Vec<u8>) -> (r: Vec<Vec<u8>>)
        ensures
            r.deep_view() == shingles_of(content@),
            r.deep_view().no_duplicates(),
    {
        build_shingles(content)
    }

    /// The Jaccard similarity of two shingle lists, as an exact ratio;
    /// 0 over 1 where either list is empty.  The length bound is a machine
    /// limit: the denominator must fit its counter.
    pub fn shingle_similarity(&self, shingles1: &Vec<Vec<u8>>, shingles2: &Vec<Vec<u8>>) -> (r:
        Ratio)
        requires
            shingles1@.len() + shingles2@.len() <= u64::MAX,
        ensures
            shingles1@.len() == 0 || shingles2@.len() == 0 ==> r == (Ratio { num: 0, den: 1 }),
            shingles1@.len() > 0 && shingles2@.len() > 0 ==> r.num as int == jaccard_num(
                shingles1.deep_view(),
                shingles2.deep_view(),
            ) && r.den as int == jaccard_den(shingles1.deep_view(), shingles2.deep_view()),
    {
        if shingles1.len() == 0 || shingles2.len() == 0 {
            return Ratio { num: 0, den: 1 };
        }
        let c1 = count_shared(shingles1, shingles2);
        let c2 = count_shared(shingles2, shingles1);
        proof {
            lemma_count_in_le(shingles2.deep_view(), shingles1.deep_view());
            assert(shingles2.deep_view().len() == shingles2@.len());
        }
        let num = c1 as u64;
        let den = shingles1.len() as u64 + ((shingles2.len() - c2) as u64);
        Ratio { num, den }
    }

    /// The normalized Smith-Waterman score of two byte sequences: the best
    /// cell over three times the longer length.  The length bounds are
    /// machine limits: cell values must fit their counters.
    pub fn smith_waterman_rolling(&self, seq1: &Vec<u8>, seq2: &Vec<u8>) -> (r: Ratio)
        requires
            3 * seq1@.len() + 3 <= i64::MAX,
            3 * seq2@.len() + 3 <= i64::MAX,
        ensures
            r.num as int == sw_max(seq1@, seq2@),
            r.den as int == 3 * max2(seq1@.len() as int, seq2@.len() as int),
    {
        let best = sw_best(seq1, seq2);
        proof {
            lemma_sw_max_bounds(seq1@, seq2@);
        }
        let ml = if seq1.len() >= seq2.len() {
            seq1.len()
        } else {
            seq2.len()
        };
        Ratio { num: best as u64, den: (ml as u64) * 3 }
    }

    /// Scores every unordered pair of retained files: oversized files are
    /// dropped first; a pair of known exact duplicates short-circuits to 1;
    /// any other pair is aligned only where its Jaccard similarity reaches
    /// 7/10.  New entries are appended to the store; see
    /// [`similarity_scores`].
    pub fn calculate_similarity(&mut self, files: Vec<LoadedFile>, duplicate_files: &Vec<Vec<u8>>)
        ensures
            final(self).similarity_scores.deep_view() == old(
                self,
            ).similarity_scores.deep_view() + similarity_scores(
                retained_of(files.deep_view()),
                duplicate_files.deep_view(),
            ),
    {
        let ghost base = self.similarity_scores.deep_view();
        let ghost fsv = files.deep_view();
        let ghost dups = duplicate_files.deep_view();

        let mut retained: Vec<LoadedFile> = Vec::new();
        proof {
            assert(fsv.take(0) =~= Seq::<LoadedModel>::empty());
            assert(retained.deep_view() =~= retained_of(fsv.take(0)));
        }
        let mut fi: usize = 0;
        while fi < files.len()
            invariant
                fi <= files.len(),
                files.deep_view() == fsv,
                retained.deep_view() == retained_of(fsv.take(fi as int)),
            decreases files.len() - fi,
        {
            proof {
                assert(fsv[fi as int] == files@[fi as int]@);
                assert(fsv.take(fi + 1 as int).drop_last() =~= fsv.take(fi as int));
                assert(fsv.take(fi + 1 as int).last() == fsv[fi as int]);
            }
            if files[fi].content.len() <= MAX_FILE_SIZE {
                let lf = LoadedFile {
                    path: copy_bytes(&files[fi].path),
                    content: copy_bytes(&files[fi].content),
                };
                let ghost old_r = retained.deep_view();
                let ghost lfv = lf@;
                retained.push(lf);
                proof {
                    assert(lfv == fsv[fi as int]);
                    assert forall|q: int|
                        0 <= q < retained@.len() implies retained.deep_view()[q] == old_r.push(
                        lfv,
                    )[q] by {
                        assert(retained.deep_view()[q] == retained@[q]@);
                    }
                    assert(retained.deep_view() =~= old_r.push(lfv));
                    assert(old_r.push(lfv) =~= old_r + seq![lfv]);
                    assert(retained.deep_view() =~= retained_of(fsv.take(fi + 1 as int)));
                }
            } else {
                proof {
                    assert(retained.deep_view() =~= retained_of(fsv.take(fi + 1 as int)));
                }
            }
            fi += 1;
        }
        proof {
            assert(fsv.take(fsv.len() as int) =~= fsv);
        }
        let ghost rv = retained.deep_view();
        proof {
            lemma_retained_bounds(fsv);
            assert(done_rows(rv, dups, 0) =~= Seq::<ScoreModel>::empty());
            assert(base + done_rows(rv, dups, 0) =~= base);
        }

        let mut i: usize = 0;
        while i < retained.len()
            invariant
                i <= retained.len(),
                retained.deep_view() == rv,
                duplicate_files.deep_view() == dups,
                rv == retained_of(fsv),
                forall|k: int|
                    0 <= k < rv.len() ==> #[trigger] rv[k].content.len() <= MAX_FILE_SIZE,
                self.similarity_scores.deep_view() == base + done_rows(rv, dups, i as int),
            decreases retained.len() - i,
        {
            proof {
                assert(rv[i as int] == retained@[i as int]@);
            }
            let sh1 = build_shingles(&retained[i].content);
            let mut j: usize = i + 1;
            proof {
                assert(base + done_rows(rv, dups, i as int) + row_scores(
                    rv,
                    dups,
                    i as int,
                    i + 1 as int,
                ) =~= base + (done_rows(rv, dups, i as int) + row_scores(
                    rv,
                    dups,
                    i as int,
                    i + 1 as int,
                )));
                assert(done_rows(rv, dups, i + 1 as int) == done_rows(rv, dups, i as int)
                    + row_scores(rv, dups, i as int, i + 1 as int));
            }
            while j < retained.len()
                invariant
                    i < j <= retained.len(),
                    i < retained.len(),
                    retained.deep_view() == rv,
                    duplicate_files.deep_view() == dups,
                    forall|k: int|
                        0 <= k < rv.len() ==> #[trigger] rv[k].content.len() <= MAX_FILE_SIZE,
                    sh1.deep_view() == shingles_of(rv[i as int].content),
                    self.similarity_scores.deep_view() + row_scores(rv, dups, i as int, j as int)
                        == base + done_rows(rv, dups, i + 1 as int),
                decreases retained.len() - j,
            {
                let ghost pe = pair_score(rv[i as int], rv[j as int], dups);
                proof {
                    assert(rv[j as int] == retained@[j as int]@);
                    assert(row_scores(rv, dups, i as int, j as int) == (match pe {
                        Option::Some(e) => seq![e],
                        Option::None => Seq::<ScoreModel>::empty(),
                    }) + row_scores(rv, dups, i as int, j + 1 as int));
                }
                let a_dup = contains_bytes(duplicate_files, &retained[i].path);
                let b_dup = contains_bytes(duplicate_files, &retained[j].path);
                if a_dup && b_dup {
                    let e = SimilarityScore {
                        path_a: copy_bytes(&retained[i].path),
                        path_b: copy_bytes(&retained[j].path),
                        jaccard_prefilter: Ratio { num: 1, den: 1 },
                        alignment_score: Ratio { num: 1, den: 1 },
                    };
                    proof {
                        assert(pe == Option::Some(e@));
                    }
                    self.push_score(e, Ghost(pe), Ghost(rv), Ghost(dups), Ghost(base), Ghost(i as int), Ghost(j as int));
                } else {
                    let sh2 = build_shingles(&retained[j].content);
                    proof {
                        lemma_shingles_len_le(rv[i as int].content);
                        lemma_shingles_len_le(rv[j as int].content);
                    }
                    if sh1.len() > 0 && sh2.len() > 0 {
                        let jac = self.shingle_similarity(&sh1, &sh2);
                        let promote = 10u128 * (jac.num as u128) >= 7u128 * (jac.den as u128);
                        if promote {
                            let sw = self.smith_waterman_rolling(
                                &retained[i].content,
                                &retained[j].content,
                            );
                            let e = SimilarityScore {
                                path_a: copy_bytes(&retained[i].path),
                                path_b: copy_bytes(&retained[j].path),
                                jaccard_prefilter: jac,
                                alignment_score: sw,
                            };
                            proof {
                                let s1 = shingles_of(rv[i as int].content);
                                let s2 = shingles_of(rv[j as int].content);
                                lemma_jaccard_bounds(s1, s2);
                                lemma_count_in_le(s2, s1);
                                lemma_sw_max_bounds(rv[i as int].content, rv[j as int].content);
                                assert(pe == Option::Some(e@));
                            }
                            self.push_score(e, Ghost(pe), Ghost(rv), Ghost(dups), Ghost(base), Ghost(i as int), Ghost(j as int));
                        } else {
                            proof {
                                let s1 = shingles_of(rv[i as int].content);
                                let s2 = shingles_of(rv[j as int].content);
                                lemma_jaccard_bounds(s1, s2);
                                lemma_count_in_le(s2, s1);
                                assert(pe is None);
                                assert(Seq::<ScoreModel>::empty() + row_scores(
                                    rv,
                                    dups,
                                    i as int,
                                    j + 1 as int,
                                ) =~= row_scores(rv, dups, i as int, j + 1 as int));
                            }
                        }
                    } else {
                        proof {
                            assert(pe is None);
                            assert(Seq::<ScoreModel>::empty() + row_scores(
                                rv,
                                dups,
                                i as int,
                                j + 1 as int,
                            ) =~= row_scores(rv, dups, i as int, j + 1 as int));
                        }
                    }
                }
                j += 1;
            }
            proof {
                assert(row_scores(rv, dups, i as int, j as int) =~= Seq::<ScoreModel>::empty());
                assert(self.similarity_scores.deep_view() + Seq::<ScoreModel>::empty()
                    =~= self.similarity_scores.deep_view());
            }
            i += 1;
        }
        proof {
            assert(self.similarity_scores.deep_view() == base + similarity_scores(rv, dups));
        }
    }

    /// Appends one score and keeps the row equation.
    fn push_score(
        &mut self,
        e: SimilarityScore,
        Ghost(pe): Ghost<Option<ScoreModel>>,
        Ghost(rv): Ghost<Seq<LoadedModel>>,
        Ghost(dups): Ghost<Seq<Seq<u8>>>,
        Ghost(base): Ghost<Seq<ScoreModel>>,
        Ghost(i): Ghost<int>,
        Ghost(j): Ghost<int>,
    )
        requires
            pe == Option::Some(e@),
            row_scores(rv, dups, i, j) == (match pe {
                Option::Some(x) => seq![x],
                Option::None => Seq::<ScoreModel>::empty(),
            }) + row_scores(rv, dups, i, j + 1),
            old(self).similarity_scores.deep_view() + row_scores(rv, dups, i, j) == base
                + done_rows(rv, dups, i + 1),
        ensures
            final(self).similarity_scores.deep_view() + row_scores(rv, dups, i, j + 1) == base
                + done_rows(rv, dups, i + 1),
    {
        let ghost old_s = self.similarity_scores.deep_view();
        let ghost ev = e@;
        self.similarity_scores.push(e);
        proof {
            assert forall|q: int|
                0 <= q < self.similarity_scores@.len()
                    implies self.similarity_scores.deep_view()[q] == old_s.push(ev)[q] by {
                assert(self.similarity_scores.deep_view()[q] == self.similarity_scores@[q]@);
            }
            assert(self.similarity_scores.deep_view() =~= old_s.push(ev));
            assert(old_s.push(ev) =~= old_s + seq![ev]);
            assert((old_s + seq![ev]) + row_scores(rv, dups, i, j + 1) =~= old_s + (seq![ev]
                + row_scores(rv, dups, i, j + 1)));
        }
    }

    /// A copy of every stored score.
    pub fn get_similar_files(&self) -> (r: Vec<SimilarityScore>)
        ensures
            r.deep_view() == self.similarity_scores.deep_view(),
    {
        let mut r: Vec<SimilarityScore> = Vec::new();
        let mut i: usize = 0;
        while i < self.similarity_scores.len()
            invariant
                i <= self.similarity_scores.len(),
                r@.len() == i,
                forall|k: int| 0 <= k < i ==> r@[k]@ == self.similarity_scores@[k]@,
            decreases self.similarity_scores.len() - i,
        {
            let s = &self.similarity_scores[i];
            r.push(
                SimilarityScore {
                    path_a: copy_bytes(&s.path_a),
                    path_b: copy_bytes(&s.path_b),
                    jaccard_prefilter: s.jaccard_prefilter,
                    alignment_score: s.alignment_score,
                },
            );
            i += 1;
        }
        proof {
            assert forall|k: int|
                0 <= k < r@.len() implies r.deep_view()[k]
                    == self.similarity_scores.deep_view()[k] by {
                assert(r.deep_view()[k] == r@[k]@);
                assert(self.similarity_scores.deep_view()[k] == self.similarity_scores@[k]@);
            }
            assert(r.deep_view() =~= self.similarity_scores.deep_view());
        }
        r
    }
}

} // verus!
