//! The ranking engine.
//!
//! `rank` takes a sequence of scored candidates and returns their identifiers
//! in a deterministic total order: descending by score, then descending by
//! recency token (a missing token sorts as the empty string), then ascending
//! by identifier.

use vstd::prelude::*;

use crate::order::Rel;
use crate::order::cmp_lex;
use crate::order::lemma_lex_lt_trans;
use crate::order::lemma_lex_lt_trichotomy;
use crate::order::lex_lt;
use crate::score::Score;
use crate::score::score_eqv;
use crate::score::score_le;
use crate::score::score_le_exec;

verus! {

/// One item eligible for ranking: an identifier, a score, and an optional
/// recency token. Identifiers and tokens are opaque byte strings.
pub struct Candidate {
    pub id: Vec<u8>,
    pub score: Score,
    pub ts: Option<Vec<u8>>,
}

/// The recency token a candidate is compared by: its token when present,
/// the empty string otherwise.
pub open spec fn ts_key(c: Candidate) -> Seq<u8> {
    match c.ts {
        Some(t) => t@,
        None => Seq::empty(),
    }
}

/// The ranking order: `a` comes at or before `b`. Higher score first; on a
/// score tie, later recency token first; on a full tie, smaller identifier
/// first.
pub open spec fn rank_le(a: Candidate, b: Candidate) -> bool {
    if !score_eqv(a.score, b.score) {
        score_le(b.score, a.score)
    } else if ts_key(a) != ts_key(b) {
        lex_lt(ts_key(b), ts_key(a))
    } else {
        !lex_lt(b.id@, a.id@)
    }
}

/// The ranking order is total: any two candidates are comparable.
pub proof fn lemma_rank_le_total(a: Candidate, b: Candidate)
    ensures
        rank_le(a, b) || rank_le(b, a),
{
    if score_eqv(a.score, b.score) {
        if ts_key(a) != ts_key(b) {
            lemma_lex_lt_trichotomy(ts_key(a), ts_key(b));
        } else {
            lemma_lex_lt_trichotomy(a.id@, b.id@);
        }
    }
}

/// The ranking order is transitive.
pub proof fn lemma_rank_le_trans(a: Candidate, b: Candidate, c: Candidate)
    requires
        rank_le(a, b),
        rank_le(b, c),
    ensures
        rank_le(a, c),
{
    if score_eqv(a.score, c.score) {
        assert(score_eqv(a.score, b.score));
        assert(score_eqv(b.score, c.score));
        let ta = ts_key(a);
        let tb = ts_key(b);
        let tc = ts_key(c);
        if ta != tb && tb != tc {
            lemma_lex_lt_trans(tc, tb, ta);
            lemma_lex_lt_trichotomy(tc, ta);
        } else if ta != tb && tb == tc {
            lemma_lex_lt_trichotomy(tc, ta);
        } else if ta == tb && tb != tc {
            lemma_lex_lt_trichotomy(tc, ta);
        } else {
            // Full tie on score and token: identifiers decide.
            if lex_lt(c.id@, a.id@) {
                lemma_lex_lt_trichotomy(c.id@, b.id@);
                if lex_lt(b.id@, c.id@) {
                    lemma_lex_lt_trans(b.id@, c.id@, a.id@);
                }
            }
        }
    }
}

/// On a score tie, the candidate with the lexicographically greater recency
/// token comes strictly first.
pub proof fn lemma_tie_breaks_by_timestamp(a: Candidate, b: Candidate)
    requires
        score_eqv(a.score, b.score),
        lex_lt(ts_key(b), ts_key(a)),
    ensures
        rank_le(a, b),
        !rank_le(b, a),
{
    lemma_lex_lt_trichotomy(ts_key(b), ts_key(a));
}

/// On a tie of score and recency token, the candidate with the
/// lexicographically smaller identifier comes strictly first.
pub proof fn lemma_full_tie_breaks_by_identifier(a: Candidate, b: Candidate)
    requires
        score_eqv(a.score, b.score),
        ts_key(a) == ts_key(b),
        lex_lt(a.id@, b.id@),
    ensures
        rank_le(a, b),
        !rank_le(b, a),
{
    lemma_lex_lt_trichotomy(a.id@, b.id@);
}

/// A NaN score never outranks an ordered score: the ordered candidate comes
/// strictly first.
pub proof fn lemma_nan_never_outranks(a: Candidate, b: Candidate)
    requires
        crate::score::is_nan(a.score),
        !crate::score::is_nan(b.score),
    ensures
        rank_le(b, a),
        !rank_le(a, b),
{
}

/// A sequence of candidates is sorted when every earlier one is at or before
/// every later one.
pub open spec fn sorted(s: Seq<Candidate>) -> bool {
    forall|i: int, j: int| 0 <= i < j < s.len() ==> #[trigger] rank_le(s[i], s[j])
}

/// The position a candidate is inserted at: just before the first element it
/// is at or before.
pub open spec fn insert_pos(c: Candidate, s: Seq<Candidate>) -> int
    decreases s.len(),
{
    if s.len() == 0 {
        0
    } else if rank_le(c, s[0]) {
        0
    } else {
        1 + insert_pos(c, s.drop_first())
    }
}

/// The insertion position is in bounds, every element before it is strictly
/// before the inserted candidate, and the element at it (if any) is at or
/// after the inserted candidate.
pub proof fn lemma_insert_pos_properties(c: Candidate, s: Seq<Candidate>)
    ensures
        0 <= insert_pos(c, s) <= s.len(),
        forall|m: int| #![trigger s[m]] 0 <= m < insert_pos(c, s) ==> !rank_le(c, s[m]),
        insert_pos(c, s) < s.len() ==> rank_le(c, s[insert_pos(c, s)]),
    decreases s.len(),
{
    if s.len() == 0 || rank_le(c, s[0]) {
    } else {
        let rest = s.drop_first();
        lemma_insert_pos_properties(c, rest);
        let p = insert_pos(c, s);
        assert forall|m: int| 0 <= m < p implies !rank_le(c, s[m]) by {
            if m > 0 {
                assert(s[m] == rest[m - 1]);
            }
        }
        if p < s.len() {
            assert(s[p] == rest[p - 1]);
        }
    }
}

/// The sorted order of a candidate sequence: each element in turn is placed
/// at its insertion position among the already-sorted earlier elements.
pub open spec fn sort_spec(s: Seq<Candidate>) -> Seq<Candidate>
    decreases s.len(),
{
    if s.len() == 0 {
        Seq::empty()
    } else {
        let rest = sort_spec(s.drop_last());
        rest.insert(insert_pos(s.last(), rest), s.last())
    }
}

/// Sorting keeps the length.
pub proof fn lemma_sort_spec_len(s: Seq<Candidate>)
    ensures
        sort_spec(s).len() == s.len(),
    decreases s.len(),
{
    if s.len() > 0 {
        lemma_sort_spec_len(s.drop_last());
        let rest = sort_spec(s.drop_last());
        lemma_insert_pos_properties(s.last(), rest);
        rest.insert_ensures(insert_pos(s.last(), rest), s.last());
    }
}

/// Inserting a candidate at its insertion position keeps a sorted sequence
/// sorted.
proof fn lemma_insert_preserves_sorted(c: Candidate, s: Seq<Candidate>)
    requires
        sorted(s),
    ensures
        sorted(s.insert(insert_pos(c, s), c)),
{
    let p = insert_pos(c, s);
    lemma_insert_pos_properties(c, s);
    s.insert_ensures(p, c);
    let t = s.insert(p, c);
    assert forall|i: int, j: int| 0 <= i < j < t.len() implies rank_le(t[i], t[j]) by {
        if i < p && j < p {
            assert(t[i] == s[i] && t[j] == s[j]);
        } else if i < p && j == p {
            assert(t[i] == s[i] && t[j] == c);
            lemma_rank_le_total(c, s[i]);
        } else if i < p && j > p {
            assert(t[i] == s[i] && t[j] == s[j - 1]);
        } else if i == p && j > p {
            assert(t[i] == c && t[j] == s[j - 1]);
            if j - 1 > p {
                lemma_rank_le_trans(c, s[p], s[j - 1]);
            }
        } else {
            assert(t[i] == s[i - 1] && t[j] == s[j - 1]);
        }
    }
}

/// The sorted order of any candidate sequence is sorted.
pub proof fn lemma_sort_spec_sorted(s: Seq<Candidate>)
    ensures
        sorted(sort_spec(s)),
    decreases s.len(),
{
    if s.len() > 0 {
        lemma_sort_spec_sorted(s.drop_last());
        lemma_insert_preserves_sorted(s.last(), sort_spec(s.drop_last()));
    }
}

/// Inserting an element adds exactly it to the multiset of a sequence.
proof fn lemma_seq_insert_to_multiset<A>(s: Seq<A>, i: int, x: A)
    requires
        0 <= i <= s.len(),
    ensures
        s.insert(i, x).to_multiset() =~= s.to_multiset().insert(x),
{
    broadcast use vstd::seq_lib::group_to_multiset_ensures;

    let t = s.insert(i, x);
    s.insert_ensures(i, x);
    t.remove_ensures(i);
    assert(t.remove(i) =~= s);
    assert(t[i] == x);
    assert(t.contains(x));
    assert(t.to_multiset().count(x) > 0);
    assert(t.remove(i).to_multiset() =~= t.to_multiset().remove(x));
    assert(t.to_multiset().remove(x).insert(x) =~= t.to_multiset());
}

/// The identifiers of a candidate sequence, in order.
pub open spec fn ids_of(s: Seq<Candidate>) -> Seq<Seq<u8>> {
    s.map_values(|c: Candidate| c.id@)
}

/// What `rank` returns: the identifiers of the sorted candidate sequence.
pub open spec fn rank_spec(s: Seq<Candidate>) -> Seq<Seq<u8>> {
    ids_of(sort_spec(s))
}

/// Ranking returns a permutation of the input identifiers: the multiset of
/// output identifiers equals the multiset of input identifiers, and the
/// length is kept. Nothing is dropped, duplicated or invented.
pub proof fn lemma_rank_permutation(s: Seq<Candidate>)
    ensures
        rank_spec(s).len() == s.len(),
        rank_spec(s).to_multiset() =~= ids_of(s).to_multiset(),
    decreases s.len(),
{
    broadcast use vstd::seq_lib::group_to_multiset_ensures;

    lemma_sort_spec_len(s);
    if s.len() == 0 {
        assert(sort_spec(s) =~= Seq::<Candidate>::empty());
        assert(rank_spec(s) =~= ids_of(s));
    } else {
        lemma_rank_permutation(s.drop_last());
        lemma_sort_spec_len(s.drop_last());
        let last = s.last();
        let rest = sort_spec(s.drop_last());
        let p = insert_pos(last, rest);
        lemma_insert_pos_properties(last, rest);
        rest.insert_ensures(p, last);
        assert(ids_of(rest.insert(p, last)) =~= ids_of(rest).insert(p, last.id@));
        lemma_seq_insert_to_multiset(ids_of(rest), p, last.id@);
        assert(ids_of(s) =~= ids_of(s.drop_last()).push(last.id@));
        assert(ids_of(s).to_multiset() =~= ids_of(s.drop_last()).to_multiset().insert(last.id@));
        assert(rank_spec(s).to_multiset() =~= ids_of(rest).to_multiset().insert(last.id@));
    }
}

/// Ranking an empty input yields an empty output.
pub proof fn lemma_rank_empty()
    ensures
        rank_spec(Seq::<Candidate>::empty()) == Seq::<Seq<u8>>::empty(),
{
    assert(rank_spec(Seq::<Candidate>::empty()) =~= Seq::<Seq<u8>>::empty());
}

/// Whatever key decides the order, the earlier candidate's score is never
/// below the later one's.
pub proof fn lemma_rank_le_scores(a: Candidate, b: Candidate)
    requires
        rank_le(a, b),
    ensures
        score_le(b.score, a.score),
{
}

/// Descending score order: in the ranked sequence, each adjacent pair has
/// the earlier score at or above the later one (ties fall to the secondary
/// and tertiary keys).
pub proof fn lemma_rank_scores_descend(s: Seq<Candidate>, i: int)
    requires
        0 <= i,
        i + 1 < sort_spec(s).len(),
    ensures
        score_le(sort_spec(s)[i + 1].score, sort_spec(s)[i].score),
{
    lemma_sort_spec_sorted(s);
    lemma_rank_le_scores(sort_spec(s)[i], sort_spec(s)[i + 1]);
}

/// The ranking order is reflexive.
pub proof fn lemma_rank_le_refl(a: Candidate)
    ensures
        rank_le(a, a),
{
    lemma_lex_lt_trichotomy(a.id@, a.id@);
}

/// Two candidates that each rank at or before the other carry the same
/// identifier: the tertiary key leaves no room for distinct ties.
pub proof fn lemma_rank_tie_ids(a: Candidate, b: Candidate)
    requires
        rank_le(a, b),
        rank_le(b, a),
    ensures
        a.id@ == b.id@,
{
    assert(score_eqv(a.score, b.score));
    if ts_key(a) != ts_key(b) {
        lemma_lex_lt_trichotomy(ts_key(a), ts_key(b));
    } else {
        lemma_lex_lt_trichotomy(a.id@, b.id@);
    }
}

/// Removing an element keeps a sequence sorted.
proof fn lemma_sorted_remove(s: Seq<Candidate>, k: int)
    requires
        sorted(s),
        0 <= k < s.len(),
    ensures
        sorted(s.remove(k)),
{
    s.remove_ensures(k);
    let t = s.remove(k);
    assert forall|i: int, j: int| 0 <= i < j < t.len() implies rank_le(t[i], t[j]) by {
        let si: int = if i < k {
            i
        } else {
            i + 1
        };
        let sj: int = if j < k {
            j
        } else {
            j + 1
        };
        assert(t[i] == s[si]);
        assert(t[j] == s[sj]);
    }
}

/// Determinism beyond the single call: any two sorted arrangements of the
/// same candidates list the same identifiers in the same order, so the
/// ranking of an input is unique however it is computed.
pub proof fn lemma_sorted_permutation_ids_unique(a: Seq<Candidate>, b: Seq<Candidate>)
    requires
        sorted(a),
        sorted(b),
        a.to_multiset() == b.to_multiset(),
    ensures
        ids_of(a) == ids_of(b),
    decreases a.len(),
{
    broadcast use vstd::seq_lib::group_to_multiset_ensures;

    assert(a.len() == a.to_multiset().len());
    assert(b.len() == b.to_multiset().len());
    assert(a.len() == b.len());
    if a.len() == 0 {
        assert(ids_of(a) =~= ids_of(b));
    } else {
        let a0 = a[0];
        assert(a.contains(a0));
        assert(a.to_multiset().count(a0) > 0);
        assert(b.to_multiset().count(a0) > 0);
        assert(b.contains(a0));
        let k = choose|k: int| 0 <= k < b.len() && b[k] == a0;
        assert(b.contains(b[0]));
        assert(b.to_multiset().count(b[0]) > 0);
        assert(a.to_multiset().count(b[0]) > 0);
        assert(a.contains(b[0]));
        let j = choose|j: int| 0 <= j < a.len() && a[j] == b[0];
        if j == 0 {
            lemma_rank_le_refl(a0);
        }
        assert(rank_le(a0, b[0]));
        assert forall|m: int| 0 <= m <= k implies b[m].id@ == a0.id@ by {
            if m == k {
                lemma_rank_le_refl(b[k]);
            } else {
                // b[m] is at or before b[k]; and b[k] == a0 is at or before
                // b[0], which is at or before b[m]: a full tie.
                if m == 0 {
                    lemma_rank_le_refl(b[0]);
                } else {
                    lemma_rank_le_trans(b[k], b[0], b[m]);
                }
                lemma_rank_tie_ids(b[m], b[k]);
            }
        }
        let a1 = a.drop_first();
        let b1 = b.remove(k);
        lemma_sorted_remove(a, 0);
        assert(a.remove(0) =~= a1);
        lemma_sorted_remove(b, k);
        assert(a1.to_multiset() == a.to_multiset().remove(a0));
        assert(b1.to_multiset() == b.to_multiset().remove(a0));
        lemma_sorted_permutation_ids_unique(a1, b1);
        b.remove_ensures(k);
        assert forall|i: int| 0 <= i < b.len() implies ids_of(a)[i] == ids_of(b)[i] by {
            if i == 0 {
                assert(b[0].id@ == a0.id@);
            } else {
                assert(ids_of(a1)[i - 1] == ids_of(b1)[i - 1]);
                assert(a[i] == a1[i - 1]);
                if i <= k {
                    assert(b1[i - 1] == b[i - 1]);
                    assert(b[i - 1].id@ == a0.id@);
                    assert(b[i].id@ == a0.id@);
                } else {
                    assert(b1[i - 1] == b[i]);
                }
            }
        }
        assert(ids_of(a) =~= ids_of(b));
    }
}

/// Runtime ranking comparison: `a` at or before `b`.
pub fn rank_le_exec(a: &Candidate, b: &Candidate) -> (r: bool)
    ensures
        r == rank_le(*a, *b),
{
    let le_ab = score_le_exec(a.score, b.score);
    let le_ba = score_le_exec(b.score, a.score);
    if !(le_ab && le_ba) {
        return le_ba;
    }
    let ts_rel = match (&a.ts, &b.ts) {
        (Some(x), Some(y)) => cmp_lex(x, y),
        (Some(x), None) => {
            if x.len() == 0 {
                proof {
                    assert(x@ =~= Seq::<u8>::empty());
                }
                Rel::Eq
            } else {
                Rel::Gt
            }
        },
        (None, Some(y)) => {
            if y.len() == 0 {
                proof {
                    assert(y@ =~= Seq::<u8>::empty());
                }
                Rel::Eq
            } else {
                Rel::Lt
            }
        },
        (None, None) => Rel::Eq,
    };
    match ts_rel {
        Rel::Gt => true,
        Rel::Lt => false,
        Rel::Eq => {
            let id_rel = cmp_lex(&a.id, &b.id);
            match id_rel {
                Rel::Gt => false,
                _ => true,
            }
        },
    }
}

/// Finds the insertion position of a candidate in a sorted working vector by
/// a left-to-right scan.
fn find_insert_pos(v: &Vec<Candidate>, c: &Candidate) -> (i: usize)
    ensures
        i as int == insert_pos(*c, v@),
{
    let mut i: usize = 0;
    while i < v.len() && !rank_le_exec(c, &v[i])
        invariant
            0 <= i <= v@.len(),
            forall|m: int| #![trigger v@[m]] 0 <= m < i ==> !rank_le(*c, v@[m]),
        decreases v@.len() - i,
    {
        i = i + 1;
    }
    proof {
        lemma_insert_pos_properties(*c, v@);
        let p = insert_pos(*c, v@);
        if i < p {
            assert(!rank_le(*c, v@[i as int]));
            assert(rank_le(*c, v@[i as int]));
        }
        if p < i {
            assert(!rank_le(*c, v@[p]));
            assert(rank_le(*c, v@[p]));
        }
    }
    i
}

/// Ranks the candidates: returns their identifiers ordered by descending
/// score, then descending recency token, then ascending identifier. The
/// result is a fixed function of the input, so equal inputs always rank
/// identically.
pub fn rank(candidates: Vec<Candidate>) -> (r: Vec<Vec<u8>>)
    ensures
        r@.len() == candidates@.len(),
        forall|i: int| 0 <= i < r@.len() ==> #[trigger] r@[i]@ == rank_spec(candidates@)[i],
{
    let ghost orig = candidates@;
    let mut work = candidates;
    let mut ordered: Vec<Candidate> = Vec::new();
    while work.len() > 0
        invariant
            work@.len() <= orig.len(),
            work@ == orig.subrange(orig.len() - work@.len(), orig.len() as int),
            ordered@ == sort_spec(orig.subrange(0, orig.len() - work@.len())),
        decreases work@.len(),
    {
        let ghost done = orig.len() - work@.len();
        let c = work.remove(0);
        proof {
            assert(c == orig[done]);
            assert(work@ =~= orig.subrange(orig.len() - work@.len(), orig.len() as int));
        }
        let pos = find_insert_pos(&ordered, &c);
        proof {
            lemma_insert_pos_properties(c, ordered@);
        }
        ordered.insert(pos, c);
        proof {
            let prefix = orig.subrange(0, done + 1);
            assert(prefix.drop_last() =~= orig.subrange(0, done));
            assert(prefix.last() == orig[done]);
        }
    }
    proof {
        assert(orig.subrange(0, orig.len() as int) =~= orig);
        lemma_sort_spec_len(orig);
    }
    let ghost ranked = sort_spec(orig);
    let mut out: Vec<Vec<u8>> = Vec::new();
    while ordered.len() > 0
        invariant
            out@.len() + ordered@.len() == ranked.len(),
            ordered@ == ranked.subrange(out@.len() as int, ranked.len() as int),
            forall|i: int| 0 <= i < out@.len() ==> #[trigger] out@[i]@ == ids_of(ranked)[i],
            ranked == sort_spec(orig),
        decreases ordered@.len(),
    {
        let c = ordered.remove(0);
        proof {
            assert(c == ranked[out@.len() as int]);
            assert(ordered@ =~= ranked.subrange(out@.len() + 1int, ranked.len() as int));
        }
        out.push(c.id);
    }
    out
}

} // verus!
