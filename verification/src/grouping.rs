//! Filename normalization and fuzzy grouping of file paths.
//!
//! Paths are clustered by a normalized form of their file name: the stem is
//! lower-cased, `_` and `-` become spaces, and one trailing version or
//! variant token (`v<digits>`, `copy`, `backup`, `final`, `draft`, or a bare
//! integer) is stripped.  A path joins the first existing group whose
//! canonical name it fuzzy-matches above a threshold, otherwise it starts a
//! new group.

use vstd::prelude::*;

use crate::text::{byte_is_ws, bytes_eq, copy_bytes, copy_range, is_ws};

verus! {

/// A path separator byte: `/` or `\`.
pub open spec fn is_sep(b: u8) -> bool {
    b == 47 || b == 92
}

/// The part of `p` after the last path separator.
pub open spec fn file_name_of(p: Seq<u8>) -> Seq<u8>
    decreases p.len(),
{
    if p.len() == 0 {
        Seq::empty()
    } else if is_sep(p.last()) {
        Seq::empty()
    } else {
        file_name_of(p.drop_last()).push(p.last())
    }
}

/// Index of the last `.` in `s`, or -1 if there is none.
pub open spec fn rfind_dot(s: Seq<u8>) -> int
    decreases s.len(),
{
    if s.len() == 0 {
        -1
    } else if s.last() == 46 {
        s.len() - 1
    } else {
        rfind_dot(s.drop_last())
    }
}

/// The file name without its extension.  A leading `.` does not start an
/// extension, so a dotfile name is its own stem.
pub open spec fn stem_of(name: Seq<u8>) -> Seq<u8> {
    let d = rfind_dot(name);
    if d > 0 {
        name.take(d)
    } else {
        name
    }
}

/// ASCII lower-casing of one byte.
pub open spec fn lower_byte(b: u8) -> u8 {
    if 65 <= b && b <= 90 {
        (b + 32) as u8
    } else {
        b
    }
}

/// `_` and `-` become a space; everything else is unchanged.
pub open spec fn sep_to_space(b: u8) -> u8 {
    if b == 95 || b == 45 {
        32u8
    } else {
        b
    }
}

/// ASCII lower-casing of a byte string.
pub open spec fn lower_seq(s: Seq<u8>) -> Seq<u8> {
    s.map_values(|b: u8| lower_byte(b))
}

/// `s` without trailing ASCII whitespace.
pub open spec fn trim_end_ws(s: Seq<u8>) -> Seq<u8>
    decreases s.len(),
{
    if s.len() > 0 && is_ws(s.last()) {
        trim_end_ws(s.drop_last())
    } else {
        s
    }
}

/// `s` without leading ASCII whitespace.
pub open spec fn trim_start_ws(s: Seq<u8>) -> Seq<u8>
    decreases s.len(),
{
    if s.len() > 0 && is_ws(s.first()) {
        trim_start_ws(s.drop_first())
    } else {
        s
    }
}

/// Start index of the trailing run of non-whitespace bytes of `s`
/// (`s.len()` when `s` is empty or ends in whitespace).
pub open spec fn token_start(s: Seq<u8>) -> int
    decreases s.len(),
{
    if s.len() == 0 || is_ws(s.last()) {
        s.len() as int
    } else {
        token_start(s.drop_last())
    }
}

pub open spec fn is_digit(b: u8) -> bool {
    48 <= b && b <= 57
}

/// `v` followed by at least one digit.
pub open spec fn is_version_tag(t: Seq<u8>) -> bool {
    t.len() >= 2 && t[0] == 118 && (forall|k: int| 1 <= k < t.len() ==> is_digit(t[k]))
}

/// A bare integer.
pub open spec fn is_integer_token(t: Seq<u8>) -> bool {
    t.len() >= 1 && (forall|k: int| 0 <= k < t.len() ==> is_digit(t[k]))
}

/// The byte string `copy`.
pub open spec fn word_copy() -> Seq<u8> {
    seq![99u8, 111u8, 112u8, 121u8]
}

/// The byte string `backup`.
pub open spec fn word_backup() -> Seq<u8> {
    seq![98u8, 97u8, 99u8, 107u8, 117u8, 112u8]
}

/// The byte string `final`.
pub open spec fn word_final() -> Seq<u8> {
    seq![102u8, 105u8, 110u8, 97u8, 108u8]
}

/// The byte string `draft`.
pub open spec fn word_draft() -> Seq<u8> {
    seq![100u8, 114u8, 97u8, 102u8, 116u8]
}

/// A version or variant marker: `v<digits>`, `copy`, `backup`, `final`,
/// `draft`, or a bare integer.
pub open spec fn is_marker_token(t: Seq<u8>) -> bool {
    ||| t == word_copy()
    ||| t == word_backup()
    ||| t == word_final()
    ||| t == word_draft()
    ||| is_version_tag(t)
    ||| is_integer_token(t)
}

/// `rep` without one trailing marker token; trimmed of surrounding
/// whitespace either way.
pub open spec fn strip_marker(rep: Seq<u8>) -> Seq<u8> {
    let te = trim_end_ws(rep);
    if te.len() == 0 {
        te
    } else {
        let ts = token_start(te);
        if is_marker_token(te.skip(ts)) {
            trim_start_ws(trim_end_ws(te.take(ts)))
        } else {
            trim_start_ws(te)
        }
    }
}

/// The normalized form of a path used as a grouping key: the lower-cased
/// stem with separators spaced out and one trailing marker token stripped.
/// If stripping leaves nothing, the lower-cased stem itself is the key.
pub open spec fn normalized_name(path: Seq<u8>) -> Seq<u8> {
    let low = lower_seq(stem_of(file_name_of(path)));
    let cleaned = strip_marker(low.map_values(|b: u8| sep_to_space(b)));
    if cleaned.len() == 0 {
        low
    } else {
        cleaned
    }
}

proof fn lemma_file_name_skip(p: Seq<u8>, cut: int)
    requires
        0 <= cut <= p.len(),
        forall|k: int| cut <= k < p.len() ==> !is_sep(p[k]),
        cut == 0 || is_sep(p[cut - 1]),
    ensures
        file_name_of(p) == p.skip(cut),
    decreases p.len(),
{
    if p.len() == 0 {
        assert(file_name_of(p) =~= p.skip(cut));
    } else if cut == p.len() {
        assert(is_sep(p.last()));
        assert(file_name_of(p) =~= p.skip(cut));
    } else {
        assert(!is_sep(p.last()));
        lemma_file_name_skip(p.drop_last(), cut);
        assert(file_name_of(p) == p.drop_last().skip(cut).push(p.last()));
        assert(p.drop_last().skip(cut).push(p.last()) =~= p.skip(cut));
    }
}

pub proof fn lemma_rfind_dot_at(s: Seq<u8>, d: int)
    requires
        0 <= d < s.len(),
        s[d] == 46,
        forall|k: int| d < k < s.len() ==> s[k] != 46,
    ensures
        rfind_dot(s) == d,
    decreases s.len(),
{
    if d == s.len() - 1 {
    } else {
        assert(s.last() != 46);
        lemma_rfind_dot_at(s.drop_last(), d);
    }
}

pub proof fn lemma_rfind_dot_none(s: Seq<u8>)
    requires
        forall|k: int| 0 <= k < s.len() ==> s[k] != 46,
    ensures
        rfind_dot(s) == -1,
    decreases s.len(),
{
    if s.len() > 0 {
        lemma_rfind_dot_none(s.drop_last());
    }
}

proof fn lemma_trim_end_take(s: Seq<u8>, e: int)
    requires
        0 <= e <= s.len(),
        forall|k: int| e <= k < s.len() ==> is_ws(s[k]),
        e == 0 || !is_ws(s[e - 1]),
    ensures
        trim_end_ws(s) == s.take(e),
    decreases s.len(),
{
    if s.len() == 0 {
        assert(trim_end_ws(s) =~= s.take(e));
    } else if e == s.len() {
        assert(!is_ws(s.last()));
        assert(trim_end_ws(s) =~= s.take(e));
    } else {
        assert(is_ws(s.last()));
        lemma_trim_end_take(s.drop_last(), e);
        assert(s.drop_last().take(e) =~= s.take(e));
    }
}

proof fn lemma_trim_start_skip(s: Seq<u8>, j: int)
    requires
        0 <= j <= s.len(),
        forall|k: int| 0 <= k < j ==> is_ws(s[k]),
        j == s.len() || !is_ws(s[j]),
    ensures
        trim_start_ws(s) == s.skip(j),
    decreases j,
{
    if j == 0 {
        assert(trim_start_ws(s) =~= s.skip(0));
    } else {
        assert(is_ws(s.first()));
        lemma_trim_start_skip(s.drop_first(), j - 1);
        assert(s.drop_first().skip(j - 1) =~= s.skip(j));
    }
}

proof fn lemma_token_start_at(s: Seq<u8>, ts: int)
    requires
        0 <= ts < s.len(),
        forall|k: int| ts <= k < s.len() ==> !is_ws(s[k]),
        ts == 0 || is_ws(s[ts - 1]),
    ensures
        token_start(s) == ts,
    decreases s.len(),
{
    assert(!is_ws(s.last()));
    let d = s.drop_last();
    if ts == s.len() - 1 {
        if d.len() == 0 {
            assert(token_start(d) == 0);
        } else {
            assert(is_ws(d.last()));
            assert(token_start(d) == d.len() as int);
        }
    } else {
        lemma_token_start_at(d, ts);
    }
}

/// The part of `path` after the last path separator.
fn file_name_part(path: &Vec<u8>) -> (name: Vec<u8>)
    ensures
        name@ == file_name_of(path@),
{
    let mut cut: usize = 0;
    let mut i: usize = 0;
    while i < path.len()
        invariant
            cut <= i <= path.len(),
            forall|k: int| cut <= k < i ==> !is_sep(path@[k]),
            cut == 0 || is_sep(path@[cut - 1]),
        decreases path.len() - i,
    {
        if path[i] == 47 || path[i] == 92 {
            cut = i + 1;
        }
        i += 1;
    }
    let name = copy_range(path, cut, path.len());
    proof {
        lemma_file_name_skip(path@, cut as int);
    }
    name
}

/// The file name without its extension.
fn stem_part(name: Vec<u8>) -> (stem: Vec<u8>)
    ensures
        stem@ == stem_of(name@),
{
    // Stem: drop the extension after the last dot, unless the dot leads.
    let mut dot: usize = 0;
    let mut found_dot: bool = false;
    let mut j: usize = 0;
    while j < name.len()
        invariant
            j <= name.len(),
            found_dot ==> dot < j && name@[dot as int] == 46,
            found_dot ==> forall|k: int| dot < k < j ==> name@[k] != 46,
            !found_dot ==> forall|k: int| 0 <= k < j ==> name@[k] != 46,
        decreases name.len() - j,
    {
        if name[j] == 46 {
            dot = j;
            found_dot = true;
        }
        j += 1;
    }
    if found_dot && dot > 0 {
        proof {
            lemma_rfind_dot_at(name@, dot as int);
        }
        copy_range(&name, 0, dot)
    } else {
        proof {
            if found_dot {
                lemma_rfind_dot_at(name@, dot as int);
            } else {
                lemma_rfind_dot_none(name@);
            }
        }
        name
    }
}

/// ASCII lower-casing of a byte string.
pub fn lower_bytes(stem: &Vec<u8>) -> (low: Vec<u8>)
    ensures
        low@ == lower_seq(stem@),
{
    let mut low: Vec<u8> = Vec::new();
    let mut k: usize = 0;
    while k < stem.len()
        invariant
            k <= stem.len(),
            low@ == lower_seq(stem@.take(k as int)),
        decreases stem.len() - k,
    {
        let b = stem[k];
        low.push(if 65 <= b && b <= 90 { b + 32 } else { b });
        proof {
            assert(lower_seq(stem@.take(k + 1 as int)) =~= lower_seq(stem@.take(k as int)).push(
                lower_byte(stem@[k as int]),
            ));
        }
        k += 1;
    }
    proof {
        assert(stem@.take(stem@.len() as int) =~= stem@);
    }
    low
}

/// `_` and `-` spaced out.
fn space_part(low: &Vec<u8>) -> (rep: Vec<u8>)
    ensures
        rep@ == low@.map_values(|b: u8| sep_to_space(b)),
{
    let mut rep: Vec<u8> = Vec::new();
    let mut m: usize = 0;
    while m < low.len()
        invariant
            m <= low.len(),
            rep@ == low@.take(m as int).map_values(|b: u8| sep_to_space(b)),
        decreases low.len() - m,
    {
        let b = low[m];
        rep.push(if b == 95 || b == 45 { 32 } else { b });
        proof {
            assert(low@.take(m + 1 as int).map_values(|b: u8| sep_to_space(b)) =~= low@.take(
                m as int,
            ).map_values(|b: u8| sep_to_space(b)).push(sep_to_space(low@[m as int])));
        }
        m += 1;
    }
    proof {
        assert(low@.take(low@.len() as int) =~= low@);
    }
    rep
}

/// One trailing marker token stripped, with surrounding whitespace trimmed;
/// see [`strip_marker`].
fn strip_part(rep: &Vec<u8>) -> (cleaned: Vec<u8>)
    ensures
        cleaned@ == strip_marker(rep@),
{
    let ghost rep_spec = rep@;
    // Trailing whitespace of the spaced-out form.
    let mut e: usize = rep.len();
    while e > 0 && byte_is_ws(rep[e - 1])
        invariant
            e <= rep.len(),
            forall|k: int| e <= k < rep@.len() ==> is_ws(rep@[k]),
        decreases e,
    {
        e -= 1;
    }
    proof {
        lemma_trim_end_take(rep_spec, e as int);
    }
    let ghost te = trim_end_ws(rep_spec);
    proof {
        assert(te == rep_spec.take(e as int));
    }

    if e == 0 {
        // Nothing but whitespace.
        proof {
            assert(strip_marker(rep_spec) =~= Seq::<u8>::empty());
        }
        return Vec::new();
    }

    // Start of the trailing token.  The last retained byte is not
    // whitespace, so the token is nonempty.
    let mut ts: usize = e - 1;
    while ts > 0 && !byte_is_ws(rep[ts - 1])
        invariant
            ts < e <= rep.len(),
            forall|k: int| ts <= k < e ==> !is_ws(rep@[k]),
        decreases ts,
    {
        ts -= 1;
    }
    proof {
        assert(forall|k: int| ts <= k < te.len() ==> !is_ws(te[k]));
        lemma_token_start_at(te, ts as int);
        assert(token_start(te) == ts as int);
    }

    let tok = copy_range(&rep, ts, e);
    proof {
        assert(tok@ =~= te.skip(ts as int));
    }
    let stripped = is_marker(&tok);

    if stripped {
        // Drop the token and trim what is left.
        let mut e2: usize = ts;
        while e2 > 0 && byte_is_ws(rep[e2 - 1])
            invariant
                e2 <= ts <= rep@.len(),
                forall|k: int| e2 <= k < ts ==> is_ws(rep@[k]),
            decreases e2,
        {
            e2 -= 1;
        }
        let mut s2: usize = 0;
        while s2 < e2 && byte_is_ws(rep[s2])
            invariant
                s2 <= e2 <= rep@.len(),
                forall|k: int| 0 <= k < s2 ==> is_ws(rep@[k]),
            decreases e2 - s2,
        {
            s2 += 1;
        }
        let cleaned = copy_range(&rep, s2, e2);
        proof {
            let head = te.take(ts as int);
            assert(head =~= rep_spec.take(ts as int));
            lemma_trim_end_take(head, e2 as int);
            let headt = trim_end_ws(head);
            assert(headt =~= rep_spec.take(e2 as int));
            lemma_trim_start_skip(headt, s2 as int);
            assert(cleaned@ =~= headt.skip(s2 as int));
            assert(cleaned@ == strip_marker(rep_spec));
        }
        cleaned
    } else {
        // Keep the token; trim leading whitespace only.
        let mut s0: usize = 0;
        while s0 < e && byte_is_ws(rep[s0])
            invariant
                s0 <= e <= rep@.len(),
                forall|k: int| 0 <= k < s0 ==> is_ws(rep@[k]),
            decreases e - s0,
        {
            s0 += 1;
        }
        let cleaned = copy_range(&rep, s0, e);
        proof {
            if s0 < e {
                assert(!is_ws(te[s0 as int]));
            }
            lemma_trim_start_skip(te, s0 as int);
            assert(cleaned@ =~= te.skip(s0 as int));
            assert(cleaned@ == strip_marker(rep_spec));
        }
        cleaned
    }
}

/// The normalized grouping key of `path`; see [`normalized_name`].
pub fn normalize_filename(path: &Vec<u8>) -> (r: Vec<u8>)
    ensures
        r@ == normalized_name(path@),
{
    let name = file_name_part(path);
    let stem = stem_part(name);
    let low = lower_bytes(&stem);
    let rep = space_part(&low);
    let cleaned = strip_part(&rep);
    if cleaned.len() == 0 {
        low
    } else {
        cleaned
    }
}

/// What fuzzy_matcher's `SkimMatcherV2::fuzzy_match`, with its default
/// configuration, returns for a choice and a pattern (read lossily as UTF-8).
/// The score is a function of the two byte strings alone.
pub uninterp spec fn fuzzy_score_of(choice: Seq<u8>, pattern: Seq<u8>) -> Option<i64>;

/// Relies on fuzzy_matcher's `SkimMatcherV2::fuzzy_match` with the default
/// configuration: a deterministic subsequence-style similarity score, `None`
/// where the pattern does not match the choice at all.
#[verifier::external_body]
fn fuzzy_score(choice: &Vec<u8>, pattern: &Vec<u8>) -> (r: Option<i64>)
    ensures
        r == fuzzy_score_of(choice@, pattern@),
{
    let matcher = fuzzy_matcher::skim::SkimMatcherV2::default();
    fuzzy_matcher::FuzzyMatcher::fuzzy_match(
        &matcher,
        &String::from_utf8_lossy(choice),
        &String::from_utf8_lossy(pattern),
    )
}

/// A cluster of paths whose normalized names fuzzy-match each other.
#[derive(Clone, Debug, PartialEq, Eq)]
pub struct FileGroup {
    /// The normalized name of the first member; fixed when the group is
    /// created and never recomputed.
    pub canonical_name: Vec<u8>,
    /// The member paths, in order of arrival.
    pub variants: Vec<Vec<u8>>,
}

/// The mathematical model of a [`FileGroup`].
pub struct GroupModel {
    pub canonical_name: Seq<u8>,
    pub members: Seq<Seq<u8>>,
}

impl View for FileGroup {
    type V = GroupModel;

    open spec fn view(&self) -> GroupModel {
        GroupModel { canonical_name: self.canonical_name@, members: self.variants.deep_view() }
    }
}

impl DeepView for FileGroup {
    type V = GroupModel;

    open spec fn deep_view(&self) -> GroupModel {
        self@
    }
}

impl FileGroup {
    /// A group with more than one member may contain duplicates.
    pub fn is_potential_duplicate(&self) -> (r: bool)
        ensures
            r == (self@.members.len() > 1),
    {
        self.variants.len() > 1
    }
}

/// Whether the fuzzy score of `name` against a group's `canonical` name
/// reaches `threshold`.
pub open spec fn score_accepts(name: Seq<u8>, canonical: Seq<u8>, threshold: i64) -> bool {
    match fuzzy_score_of(name, canonical) {
        Option::Some(s) => s >= threshold,
        Option::None => false,
    }
}

/// Index of the first group whose canonical name accepts `name`, or -1.
pub open spec fn find_matching_group(gs: Seq<GroupModel>, name: Seq<u8>, threshold: i64) -> int
    decreases gs.len(),
{
    if gs.len() == 0 {
        -1
    } else if score_accepts(name, gs[0].canonical_name, threshold) {
        0
    } else {
        let r = find_matching_group(gs.drop_first(), name, threshold);
        if r == -1 {
            -1
        } else {
            r + 1
        }
    }
}

/// One clustering step: `path` joins the first group that accepts its
/// normalized name, else it starts a new group keyed by that name.
pub open spec fn insert_path(gs: Seq<GroupModel>, path: Seq<u8>, threshold: i64) -> Seq<
    GroupModel,
> {
    let name = normalized_name(path);
    let i = find_matching_group(gs, name, threshold);
    if 0 <= i < gs.len() {
        gs.update(
            i,
            GroupModel { canonical_name: gs[i].canonical_name, members: gs[i].members.push(path) },
        )
    } else {
        gs.push(GroupModel { canonical_name: name, members: seq![path] })
    }
}

/// The groups produced by clustering `paths` in order.
pub open spec fn groups_of(paths: Seq<Seq<u8>>, threshold: i64) -> Seq<GroupModel>
    decreases paths.len(),
{
    if paths.len() == 0 {
        Seq::empty()
    } else {
        insert_path(groups_of(paths.drop_last(), threshold), paths.last(), threshold)
    }
}

proof fn lemma_find_none(gs: Seq<GroupModel>, name: Seq<u8>, threshold: i64)
    requires
        forall|k: int| 0 <= k < gs.len() ==> !score_accepts(name, gs[k].canonical_name, threshold),
    ensures
        find_matching_group(gs, name, threshold) == -1,
    decreases gs.len(),
{
    if gs.len() > 0 {
        lemma_find_none(gs.drop_first(), name, threshold);
    }
}

proof fn lemma_find_at(gs: Seq<GroupModel>, name: Seq<u8>, threshold: i64, i: int)
    requires
        0 <= i < gs.len(),
        forall|k: int| 0 <= k < i ==> !score_accepts(name, gs[k].canonical_name, threshold),
        score_accepts(name, gs[i].canonical_name, threshold),
    ensures
        find_matching_group(gs, name, threshold) == i,
    decreases gs.len(),
{
    if i > 0 {
        lemma_find_at(gs.drop_first(), name, threshold, i - 1);
    }
}

/// Groups files by the fuzzy similarity of their normalized names.
pub struct SmartGrouper {
    /// Minimum fuzzy score for a path to join an existing group.
    pub threshold: i64,
}

impl SmartGrouper {
    /// A grouper with the default threshold of 60.
    pub fn new() -> (r: Self)
        ensures
            r.threshold == 60,
    {
        SmartGrouper { threshold: 60 }
    }

    /// Clusters `files` in order; see [`groups_of`].
    pub fn group_files(&self, files: Vec<Vec<u8>>) -> (groups: Vec<FileGroup>)
        ensures
            groups.deep_view() == groups_of(files.deep_view(), self.threshold),
    {
        let mut groups: Vec<FileGroup> = Vec::new();
        let mut i: usize = 0;
        while i < files.len()
            invariant
                i <= files.len(),
                groups.deep_view() == groups_of(files.deep_view().take(i as int), self.threshold),
            decreases files.len() - i,
        {
            let file = copy_bytes(&files[i]);
            proof {
                assert(file@ == files.deep_view()[i as int]);
            }
            let normalized = normalize_filename(&file);
            let ghost gs0 = groups.deep_view();

            let mut idx: usize = 0;
            let mut found: bool = false;
            while !found && idx < groups.len()
                invariant
                    idx <= groups.len(),
                    groups.deep_view() == gs0,
                    normalized@ == normalized_name(file@),
                    forall|k: int|
                        0 <= k < idx ==> !score_accepts(
                            normalized@,
                            gs0[k].canonical_name,
                            self.threshold,
                        ),
                    found ==> idx < groups.len() && score_accepts(
                        normalized@,
                        gs0[idx as int].canonical_name,
                        self.threshold,
                    ),
                decreases groups.len() - idx, if found { 0int } else { 1int },
            {
                proof {
                    assert(groups.deep_view()[idx as int] == groups@[idx as int]@);
                }
                let score = fuzzy_score(&normalized, &groups[idx].canonical_name);
                match score {
                    Option::Some(s) => {
                        if s >= self.threshold {
                            found = true;
                        } else {
                            idx += 1;
                        }
                    },
                    Option::None => {
                        idx += 1;
                    },
                }
            }

            let ghost filev = file@;
            if found {
                proof {
                    lemma_find_at(gs0, normalized@, self.threshold, idx as int);
                    assert(gs0[idx as int] == groups@[idx as int]@);
                }
                let mut g = groups.remove(idx);
                g.variants.push(file);
                proof {
                    assert(g.variants.deep_view() =~= gs0[idx as int].members.push(filev));
                }
                groups.insert(idx, g);
                proof {
                    let updated = GroupModel {
                        canonical_name: gs0[idx as int].canonical_name,
                        members: gs0[idx as int].members.push(filev),
                    };
                    assert(groups.deep_view() =~= gs0.update(idx as int, updated));
                    assert(groups.deep_view() == insert_path(gs0, filev, self.threshold));
                }
            } else {
                proof {
                    lemma_find_none(gs0, normalized@, self.threshold);
                }
                let ghost normv = normalized@;
                let mut variants: Vec<Vec<u8>> = Vec::new();
                variants.push(file);
                proof {
                    assert(variants.deep_view() =~= seq![filev]);
                }
                groups.push(FileGroup { canonical_name: normalized, variants });
                proof {
                    assert(groups.deep_view() =~= gs0.push(
                        GroupModel { canonical_name: normv, members: seq![filev] },
                    ));
                    assert(normv == normalized_name(filev));
                    assert(groups.deep_view() == insert_path(gs0, filev, self.threshold));
                }
            }
            proof {
                assert(files.deep_view().take(i + 1 as int).drop_last() =~= files.deep_view().take(
                    i as int,
                ));
                assert(files.deep_view().take(i + 1 as int).last() == files.deep_view()[i as int]);
            }
            i += 1;
        }
        proof {
            assert(files.deep_view().take(files.deep_view().len() as int) =~= files.deep_view());
        }
        groups
    }
}

/// Grouping determinism: the groups are a function of the path list and the
/// threshold alone, so re-running on the same input yields identical groups.
pub proof fn lemma_grouping_deterministic(
    g1: Seq<GroupModel>,
    g2: Seq<GroupModel>,
    paths: Seq<Seq<u8>>,
    threshold: i64,
)
    requires
        g1 == groups_of(paths, threshold),
        g2 == groups_of(paths, threshold),
    ensures
        g1 == g2,
{
}

/// Sum of the member counts of a sequence of groups.
pub open spec fn total_members(gs: Seq<GroupModel>) -> int
    decreases gs.len(),
{
    if gs.len() == 0 {
        0
    } else {
        total_members(gs.drop_last()) + gs.last().members.len()
    }
}

proof fn lemma_total_members_update(gs: Seq<GroupModel>, i: int, g: GroupModel)
    requires
        0 <= i < gs.len(),
        g.members.len() == gs[i].members.len() + 1,
    ensures
        total_members(gs.update(i, g)) == total_members(gs) + 1,
    decreases gs.len(),
{
    let u = gs.update(i, g);
    if i == gs.len() - 1 {
        assert(u.drop_last() =~= gs.drop_last());
        assert(u.last() == g);
    } else {
        assert(u.drop_last() =~= gs.drop_last().update(i, g));
        assert(u.last() == gs.last());
        lemma_total_members_update(gs.drop_last(), i, g);
    }
}

proof fn lemma_insert_path_total(gs: Seq<GroupModel>, path: Seq<u8>, threshold: i64)
    ensures
        total_members(insert_path(gs, path, threshold)) == total_members(gs) + 1,
{
    let name = normalized_name(path);
    let i = find_matching_group(gs, name, threshold);
    if 0 <= i < gs.len() {
        lemma_total_members_update(
            gs,
            i,
            GroupModel { canonical_name: gs[i].canonical_name, members: gs[i].members.push(path) },
        );
    } else {
        let p = gs.push(GroupModel { canonical_name: name, members: seq![path] });
        assert(p.drop_last() =~= gs);
    }
}

/// Every path lands in exactly one group, so the member counts of the
/// groups sum to the number of input paths.
pub proof fn lemma_groups_cover_all_paths(paths: Seq<Seq<u8>>, threshold: i64)
    ensures
        total_members(groups_of(paths, threshold)) == paths.len(),
    decreases paths.len(),
{
    if paths.len() > 0 {
        lemma_groups_cover_all_paths(paths.drop_last(), threshold);
        lemma_insert_path_total(groups_of(paths.drop_last(), threshold), paths.last(), threshold);
    }
}

/// Whether `tok` is a version or variant marker; see [`is_marker_token`].
pub fn is_marker(tok: &Vec<u8>) -> (r: bool)
    ensures
        r == is_marker_token(tok@),
{
    let copy_w: Vec<u8> = vec![99u8, 111u8, 112u8, 121u8];
    let backup_w: Vec<u8> = vec![98u8, 97u8, 99u8, 107u8, 117u8, 112u8];
    let final_w: Vec<u8> = vec![102u8, 105u8, 110u8, 97u8, 108u8];
    let draft_w: Vec<u8> = vec![100u8, 114u8, 97u8, 102u8, 116u8];
    proof {
        assert(copy_w@ =~= word_copy());
        assert(backup_w@ =~= word_backup());
        assert(final_w@ =~= word_final());
        assert(draft_w@ =~= word_draft());
    }
    if bytes_eq(tok, &copy_w) || bytes_eq(tok, &backup_w) || bytes_eq(tok, &final_w) || bytes_eq(
        tok,
        &draft_w,
    ) {
        return true;
    }
    // v<digits>
    if tok.len() >= 2 && tok[0] == 118 {
        let mut k: usize = 1;
        let mut all: bool = true;
        while k < tok.len()
            invariant
                1 <= k <= tok@.len(),
                all == (forall|q: int| 1 <= q < k ==> is_digit(tok@[q])),
            decreases tok.len() - k,
        {
            if !(48 <= tok[k] && tok[k] <= 57) {
                all = false;
            }
            k += 1;
        }
        if all {
            return true;
        }
    }
    // bare integer
    if tok.len() >= 1 {
        let mut k: usize = 0;
        let mut all: bool = true;
        while k < tok.len()
            invariant
                k <= tok@.len(),
                all == (forall|q: int| 0 <= q < k ==> is_digit(tok@[q])),
            decreases tok.len() - k,
        {
            if !(48 <= tok[k] && tok[k] <= 57) {
                all = false;
            }
            k += 1;
        }
        if all {
            return true;
        }
    }
    false
}

} // verus!
