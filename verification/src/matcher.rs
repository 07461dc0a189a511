//! Two-tier fuzzy scoring of a candidate name against a query.
//!
//! Both texts are compared in lower case. A candidate that contains the query
//! as a contiguous piece scores `1000` less the byte offset of the first such
//! piece. Otherwise the query is placed greedily, character by character, on
//! the candidate; runs of adjacent placements earn a growing bonus and the
//! number of candidate characters consumed is subtracted.

use vstd::prelude::*;
use vstd::string::*;
use vstd::std_specs::iter::IteratorSpec;
use vstd::utf8::encode_utf8;
use vstd::utf8::is_ascii_chars;
use vstd::utf8::is_ascii_chars_encode_utf8;

verus! {

/// Score of a contiguous match that starts at the very beginning.
pub const SUBSTRING_BASE: i32 = 1000;

/// Bonus per placed character, multiplied by the length of the current run.
pub const RUN_BONUS: i32 = 10;

/// The lower-case form of a text, as `str::to_lowercase` computes it.
pub uninterp spec fn lowercase_of(text: Seq<char>) -> Seq<char>;

/// Calls `str::to_lowercase`. Nothing is proved of the Unicode case mapping:
/// the result is only given the name `lowercase_of`.
#[verifier::external_body]
fn lowercase(text: &str) -> (lowered: String)
    ensures
        lowered@ == lowercase_of(text@),
{
    text.to_lowercase()
}

/// `needle` stands in `hay` at offset `at`.
pub open spec fn occurs_at(hay: Seq<u8>, needle: Seq<u8>, at: int) -> bool {
    0 <= at && at + needle.len() <= hay.len() && hay.subrange(at, at + needle.len()) == needle
}

/// The least offset at or after `from` where `needle` stands in `hay`.
pub open spec fn first_occurrence_from(hay: Seq<u8>, needle: Seq<u8>, from: int) -> Option<int>
    decreases hay.len() + 1 - from,
{
    if from < 0 || from + needle.len() > hay.len() {
        None
    } else if occurs_at(hay, needle, from) {
        Some(from)
    } else {
        first_occurrence_from(hay, needle, from + 1)
    }
}

/// The least offset where `needle` stands in `hay`.
pub open spec fn first_occurrence(hay: Seq<u8>, needle: Seq<u8>) -> Option<int> {
    first_occurrence_from(hay, needle, 0)
}

/// The greedy walk. `qi` query characters are placed, `ti` candidate
/// characters are consumed, the current run has length `run`, and the
/// bonuses earned so far add up to `gained`.
pub open spec fn walk(
    query: Seq<char>,
    target: Seq<char>,
    qi: int,
    ti: int,
    run: int,
    gained: int,
) -> Option<int>
    decreases target.len() - ti,
{
    if qi >= query.len() {
        Some(gained - ti)
    } else if ti >= target.len() || ti < 0 || qi < 0 {
        None
    } else if target[ti] == query[qi] {
        walk(query, target, qi + 1, ti + 1, run + 1, gained + 10 * (run + 1))
    } else {
        walk(query, target, qi, ti + 1, 0, gained)
    }
}

/// Score of the subsequence tier, or `None` where some query character
/// cannot be placed.
pub open spec fn subsequence_score(query: Seq<char>, target: Seq<char>) -> Option<int> {
    walk(query, target, 0, 0, 0, 0)
}

/// Score of a query against a candidate, both already in lower case.
pub open spec fn score_lowered(query: Seq<char>, target: Seq<char>) -> Option<int> {
    match first_occurrence(encode_utf8(target), encode_utf8(query)) {
        Some(at) => Some(1000 - at),
        None => subsequence_score(query, target),
    }
}

/// The score is a value of the result type.
pub open spec fn fits(score: int) -> bool {
    i32::MIN <= score <= i32::MAX
}

/// A score as it is handed out: itself where it fits the result type, and
/// none where it does not.
pub open spec fn returned(score: Option<int>) -> Option<int> {
    match score {
        Some(value) => if fits(value) {
            score
        } else {
            None
        },
        None => None,
    }
}

/// Score of a query against a candidate name: both are lowered first.
pub open spec fn fuzzy_score(query: Seq<char>, target: Seq<char>) -> Option<int> {
    returned(score_lowered(lowercase_of(query), lowercase_of(target)))
}

/// An executable score read as a mathematical integer.
pub open spec fn as_int(score: Option<i32>) -> Option<int> {
    match score {
        Some(s) => Some(s as int),
        None => None,
    }
}

/// The characters of `text`, one by one.
fn chars_of(text: &str) -> (chars: Vec<char>)
    ensures
        chars@ == text@,
{
    let mut rest = text.chars();
    let mut chars: Vec<char> = Vec::new();
    assert(chars@ + rest.remaining() =~= text@);
    loop
        invariant
            rest.obeys_prophetic_iter_laws(),
            rest.decrease() is Some,
            chars@ + rest.remaining() == text@,
        ensures
            chars@ == text@,
        decreases rest.decrease()->0,
    {
        let ghost before = rest.remaining();
        match rest.next() {
            Some(c) => {
                chars.push(c);
                assert(chars@ + rest.remaining() =~= text@);
            },
            None => {
                assert(chars@ + before =~= chars@);
                break ;
            },
        }
    }
    chars
}

/// Whether `needle` stands in `hay` at offset `at`.
fn matches_at(hay: &[u8], needle: &[u8], at: usize) -> (found: bool)
    requires
        at + needle@.len() <= hay@.len(),
    ensures
        found == occurs_at(hay@, needle@, at as int),
{
    let n: usize = hay.len();
    let mut k: usize = 0;
    while k < needle.len()
        invariant
            k <= needle@.len(),
            at + needle@.len() <= hay@.len(),
            n == hay@.len(),
            forall|j: int| 0 <= j < k ==> hay@[at + j] == needle@[j],
        decreases needle@.len() - k,
    {
        if hay[at + k] != needle[k] {
            assert(hay@.subrange(at as int, at + needle@.len())[k as int] == hay@[at + k]);
            return false;
        }
        k += 1;
    }
    assert(hay@.subrange(at as int, at + needle@.len()) =~= needle@);
    true
}

/// The least offset at which `needle` stands in `hay`, if it does anywhere.
pub fn find_bytes(hay: &[u8], needle: &[u8]) -> (found: Option<usize>)
    ensures
        match found {
            Some(at) => first_occurrence(hay@, needle@) == Some(at as int) && at + needle@.len()
                <= hay@.len(),
            None => first_occurrence(hay@, needle@) is None,
        },
{
    if needle.len() > hay.len() {
        return None;
    }
    let last: usize = hay.len() - needle.len();
    let mut at: usize = 0;
    loop
        invariant
            at <= last,
            last == hay@.len() - needle@.len(),
            first_occurrence_from(hay@, needle@, at as int) == first_occurrence(hay@, needle@),
        decreases last - at,
    {
        if matches_at(hay, needle, at) {
            return Some(at);
        }
        if at == last {
            assert(first_occurrence_from(hay@, needle@, at + 1) is None);
            return None;
        }
        at += 1;
    }
}

/// The subsequence tier on two character sequences. A score outside the
/// result type is not handed out.
pub fn subsequence_walk(query: &Vec<char>, target: &Vec<char>) -> (score: Option<i32>)
    ensures
        as_int(score) == returned(subsequence_score(query@, target@)),
{
    let ceiling: i128 = (i32::MAX as i128) + (target.len() as i128);
    let mut qi: usize = 0;
    let mut ti: usize = 0;
    let mut run: usize = 0;
    let mut gained: i128 = 0;
    while qi < query.len() && ti < target.len()
        invariant
            qi <= query@.len(),
            ti <= target@.len(),
            0 <= run <= qi,
            ceiling == i32::MAX + target@.len(),
            0 <= gained <= ceiling,
            walk(query@, target@, qi as int, ti as int, run as int, gained as int)
                == subsequence_score(query@, target@),
        decreases target@.len() - ti,
    {
        if target[ti] == query[qi] {
            run = run + 1;
            gained = gained + 10 * (run as i128);
            qi = qi + 1;
            if gained > ceiling {
                proof {
                    lemma_walk_keeps_gains(
                        query@,
                        target@,
                        qi as int,
                        ti + 1,
                        run as int,
                        gained as int,
                    );
                }
                return None;
            }
        } else {
            run = 0;
        }
        ti = ti + 1;
    }
    if qi < query.len() {
        return None;
    }
    let total: i128 = gained - (ti as i128);
    if total < (i32::MIN as i128) || total > (i32::MAX as i128) {
        None
    } else {
        Some(total as i32)
    }
}

/// Scores `query` against `target`, both already in lower case. A score
/// outside the result type is not handed out.
pub fn match_score(query: &str, target: &str) -> (score: Option<i32>)
    ensures
        as_int(score) == returned(score_lowered(query@, target@)),
{
    let found = find_bytes(target.as_bytes(), query.as_bytes());
    match found {
        Some(at) => {
            let value: i128 = 1000 - (at as i128);
            if value < (i32::MIN as i128) {
                None
            } else {
                Some(value as i32)
            }
        },
        None => {
            let q = chars_of(query);
            let t = chars_of(target);
            subsequence_walk(&q, &t)
        },
    }
}

/// Scores a candidate name against a query, ignoring case. `None` is "no
/// match"; it is also the answer where the score is no value of the result
/// type.
pub fn fuzzy_match(query: &str, target: &str) -> (score: Option<i32>)
    ensures
        as_int(score) == fuzzy_score(query@, target@),
{
    let q = lowercase(query);
    let t = lowercase(target);
    match_score(q.as_str(), t.as_str())
}

/// A walk that succeeds scores at least what was gained so far, less the
/// length of the candidate.
pub proof fn lemma_walk_keeps_gains(
    query: Seq<char>,
    target: Seq<char>,
    qi: int,
    ti: int,
    run: int,
    gained: int,
)
    requires
        0 <= run,
        ti <= target.len(),
    ensures
        walk(query, target, qi, ti, run, gained) is Some ==> walk(
            query,
            target,
            qi,
            ti,
            run,
            gained,
        )->0 >= gained - target.len(),
    decreases target.len() - ti,
{
    if qi < query.len() && 0 <= qi && 0 <= ti < target.len() {
        if target[ti] == query[qi] {
            lemma_walk_keeps_gains(query, target, qi + 1, ti + 1, run + 1, gained + 10 * (run + 1));
        } else {
            lemma_walk_keeps_gains(query, target, qi, ti + 1, 0, gained);
        }
    }
}

/// `first_occurrence_from` gives the least offset from `from` on at which
/// `needle` stands, and none exactly where it stands at no such offset.
pub proof fn lemma_first_occurrence_is_least(hay: Seq<u8>, needle: Seq<u8>, from: int)
    requires
        0 <= from,
    ensures
        match first_occurrence_from(hay, needle, from) {
            Some(at) => from <= at && occurs_at(hay, needle, at) && forall|j: int|
                from <= j < at ==> !occurs_at(hay, needle, j),
            None => forall|j: int| from <= j ==> !occurs_at(hay, needle, j),
        },
    decreases hay.len() + 1 - from,
{
    if from + needle.len() <= hay.len() && !occurs_at(hay, needle, from) {
        lemma_first_occurrence_is_least(hay, needle, from + 1);
    }
}

/// Encoding a text piece by piece gives the encoding of the whole.
pub proof fn lemma_encoding_of_concat(head: Seq<char>, rest: Seq<char>)
    ensures
        encode_utf8(head + rest) == encode_utf8(head) + encode_utf8(rest),
    decreases head.len(),
{
    if head.len() == 0 {
        assert(head + rest =~= rest);
        assert(encode_utf8(head) + encode_utf8(rest) =~= encode_utf8(rest));
    } else {
        lemma_encoding_of_concat(head.drop_first(), rest);
        assert((head + rest).drop_first() =~= head.drop_first() + rest);
        assert(encode_utf8(head + rest) =~= encode_utf8(head) + encode_utf8(rest));
    }
}

/// Substring tier: where the lowered candidate holds the lowered query at
/// byte offset `at` and at no earlier offset, the score is `1000 - at`,
/// whatever the length of the query, as long as that is a value of the
/// result type.
pub proof fn lemma_substring_score(query: Seq<char>, target: Seq<char>, at: int)
    requires
        fits(1000 - at),
        occurs_at(encode_utf8(lowercase_of(target)), encode_utf8(lowercase_of(query)), at),
        forall|j: int|
            0 <= j < at ==> !occurs_at(
                encode_utf8(lowercase_of(target)),
                encode_utf8(lowercase_of(query)),
                j,
            ),
    ensures
        fuzzy_score(query, target) == Some(1000 - at),
{
    lemma_first_occurrence_is_least(
        encode_utf8(lowercase_of(target)),
        encode_utf8(lowercase_of(query)),
        0,
    );
}

/// Substring tier, by characters: where the lowered candidate holds the
/// lowered query as a contiguous run of characters from position `start`,
/// the pair has a score, and it is at least `1000` less the number of bytes
/// that encode the characters before `start`.
pub proof fn lemma_contained_query_scores(query: Seq<char>, target: Seq<char>, start: int)
    requires
        fits(1000 - encode_utf8(lowercase_of(target).subrange(0, start)).len()),
        0 <= start,
        start + lowercase_of(query).len() <= lowercase_of(target).len(),
        lowercase_of(target).subrange(start, start + lowercase_of(query).len()) == lowercase_of(
            query,
        ),
    ensures
        fuzzy_score(query, target) is Some,
        1000 - encode_utf8(lowercase_of(target).subrange(0, start)).len() <= fuzzy_score(
            query,
            target,
        )->0 <= 1000,
{
    let q = lowercase_of(query);
    let t = lowercase_of(target);
    let head = t.subrange(0, start);
    let tail = t.subrange(start + q.len(), t.len() as int);
    assert(t =~= head + (q + tail));
    lemma_encoding_of_concat(head, q + tail);
    lemma_encoding_of_concat(q, tail);
    let hay = encode_utf8(t);
    let needle = encode_utf8(q);
    let offset = encode_utf8(head).len() as int;
    assert(hay.subrange(offset, offset + needle.len()) =~= needle);
    assert(occurs_at(hay, needle, offset));
    lemma_first_occurrence_is_least(hay, needle, 0);
}

/// `piece` stands in `text` from character position `at` on.
pub open spec fn stands_at(text: Seq<char>, piece: Seq<char>, at: int) -> bool {
    0 <= at && at + piece.len() <= text.len() && text.subrange(at, at + piece.len()) == piece
}

/// Substring tier on ASCII texts, where bytes and characters coincide: the
/// score is `1000` less the position of the first occurrence of the lowered
/// query in the lowered candidate.
pub proof fn lemma_ascii_substring_score(query: Seq<char>, target: Seq<char>, at: int)
    requires
        fits(1000 - at),
        is_ascii_chars(lowercase_of(query)),
        is_ascii_chars(lowercase_of(target)),
        stands_at(lowercase_of(target), lowercase_of(query), at),
        forall|j: int| 0 <= j < at ==> !stands_at(lowercase_of(target), lowercase_of(query), j),
    ensures
        fuzzy_score(query, target) == Some(1000 - at),
{
    let q = lowercase_of(query);
    let t = lowercase_of(target);
    let hay = encode_utf8(t);
    let needle = encode_utf8(q);
    is_ascii_chars_encode_utf8(q);
    is_ascii_chars_encode_utf8(t);
    assert forall|k: int| 0 <= k < needle.len() implies hay[at + k] == needle[k] by {
        assert(t.subrange(at, at + q.len())[k] == q[k]);
        assert(hay[at + k] == t[at + k] as u8);
        assert(needle[k] == q[k] as u8);
    }
    assert(hay.subrange(at, at + needle.len()) =~= needle);
    assert forall|j: int| 0 <= j < at implies !occurs_at(hay, needle, j) by {
        if occurs_at(hay, needle, j) {
            assert forall|k: int| 0 <= k < q.len() implies t[j + k] == q[k] by {
                assert(hay.subrange(j, j + needle.len())[k] == needle[k]);
                assert(hay[j + k] == t[j + k] as u8);
                assert(needle[k] == q[k] as u8);
                assert('\0' <= t[j + k] <= '\u{7f}');
                assert('\0' <= q[k] <= '\u{7f}');
            }
            assert(t.subrange(j, j + q.len()) =~= q);
            assert(stands_at(t, q, j));
        }
    }
    lemma_substring_score(query, target, at);
}

/// The characters of `query` from `qi` on can be found, in order, among the
/// characters of `target` from `ti` on.
pub open spec fn embeds(query: Seq<char>, target: Seq<char>, qi: int, ti: int) -> bool
    decreases target.len() - ti,
{
    if qi >= query.len() {
        true
    } else if ti >= target.len() || ti < 0 || qi < 0 {
        false
    } else {
        (target[ti] == query[qi] && embeds(query, target, qi + 1, ti + 1)) || embeds(
            query,
            target,
            qi,
            ti + 1,
        )
    }
}

/// What embeds from `qi` on embeds from `qi + 1` on.
pub proof fn lemma_embeds_shorter(query: Seq<char>, target: Seq<char>, qi: int, ti: int)
    requires
        0 <= qi,
        embeds(query, target, qi, ti),
    ensures
        embeds(query, target, qi + 1, ti),
    decreases target.len() - ti,
{
    if qi + 1 < query.len() {
        if !(target[ti] == query[qi] && embeds(query, target, qi + 1, ti + 1)) {
            lemma_embeds_shorter(query, target, qi, ti + 1);
        }
    }
}

/// The greedy walk places every query character exactly where the rest of
/// the query can be found, in order, in the rest of the candidate.
pub proof fn lemma_walk_places_what_embeds(
    query: Seq<char>,
    target: Seq<char>,
    qi: int,
    ti: int,
    run: int,
    gained: int,
)
    requires
        0 <= qi,
        0 <= ti,
    ensures
        walk(query, target, qi, ti, run, gained) is Some <==> embeds(query, target, qi, ti),
    decreases target.len() - ti,
{
    if qi < query.len() && ti < target.len() {
        if target[ti] == query[qi] {
            lemma_walk_places_what_embeds(
                query,
                target,
                qi + 1,
                ti + 1,
                run + 1,
                gained + 10 * (run + 1),
            );
            if embeds(query, target, qi, ti + 1) {
                lemma_embeds_shorter(query, target, qi, ti + 1);
            }
        } else {
            lemma_walk_places_what_embeds(query, target, qi, ti + 1, 0, gained);
        }
    }
}

/// No match: the two tiers give no score exactly where the lowered
/// candidate holds the lowered query neither as a contiguous piece nor as
/// characters in order; and no score is handed out exactly where the tiers
/// give none or give one outside the result type.
pub proof fn lemma_no_match(query: Seq<char>, target: Seq<char>)
    ensures
        score_lowered(lowercase_of(query), lowercase_of(target)) is None <==> (first_occurrence(
            encode_utf8(lowercase_of(target)),
            encode_utf8(lowercase_of(query)),
        ) is None && !embeds(lowercase_of(query), lowercase_of(target), 0, 0)),
        fuzzy_score(query, target) is None <==> (score_lowered(
            lowercase_of(query),
            lowercase_of(target),
        ) is None || !fits(score_lowered(lowercase_of(query), lowercase_of(target))->0)),
{
    lemma_walk_places_what_embeds(lowercase_of(query), lowercase_of(target), 0, 0, 0, 0);
}

/// A query whose characters can be found in order in the candidate has a
/// score: that of the walk where the candidate does not hold the query as a
/// contiguous piece. It is handed out where it is a value of the result
/// type.
pub proof fn lemma_placed_query_scores(query: Seq<char>, target: Seq<char>)
    requires
        embeds(lowercase_of(query), lowercase_of(target), 0, 0),
    ensures
        score_lowered(lowercase_of(query), lowercase_of(target)) is Some,
        first_occurrence(
            encode_utf8(lowercase_of(target)),
            encode_utf8(lowercase_of(query)),
        ) is None ==> score_lowered(lowercase_of(query), lowercase_of(target))
            == subsequence_score(lowercase_of(query), lowercase_of(target)),
        fits(score_lowered(lowercase_of(query), lowercase_of(target))->0) ==> fuzzy_score(
            query,
            target,
        ) == score_lowered(lowercase_of(query), lowercase_of(target)),
{
    lemma_walk_places_what_embeds(lowercase_of(query), lowercase_of(target), 0, 0, 0, 0);
}

/// The subsequence tier never loses by a longer run: from the same place in
/// both texts, a walk that starts with a run at least as long, and with at
/// least as much gained, succeeds where the other does and scores at least
/// as high.
pub proof fn lemma_longer_run_scores_higher(
    query: Seq<char>,
    target: Seq<char>,
    qi: int,
    ti: int,
    run: int,
    gained: int,
    longer_run: int,
    more_gained: int,
)
    requires
        run <= longer_run,
        gained <= more_gained,
    ensures
        walk(query, target, qi, ti, run, gained) is Some <==> walk(
            query,
            target,
            qi,
            ti,
            longer_run,
            more_gained,
        ) is Some,
        walk(query, target, qi, ti, run, gained) is Some ==> walk(
            query,
            target,
            qi,
            ti,
            run,
            gained,
        )->0 <= walk(query, target, qi, ti, longer_run, more_gained)->0,
    decreases target.len() - ti,
{
    if qi < query.len() && 0 <= qi && 0 <= ti < target.len() {
        if target[ti] == query[qi] {
            lemma_longer_run_scores_higher(
                query,
                target,
                qi + 1,
                ti + 1,
                run + 1,
                gained + 10 * (run + 1),
                longer_run + 1,
                more_gained + 10 * (longer_run + 1),
            );
        } else {
            lemma_longer_run_scores_higher(query, target, qi, ti + 1, 0, gained, 0, more_gained);
        }
    }
}

} // verus!
