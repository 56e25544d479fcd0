//! The search engine: filters the store's keys by a case-insensitive literal
//! substring test. The query is escaped before it reaches the matcher, so its
//! text is never read as a pattern; an empty query keeps every key.
use crate::store::AssociationStore;
use crate::text::lex_lt;
use vstd::prelude::*;

verus! {

/// ASCII letters are folded to lower case; every other character stays.
pub open spec fn ascii_lower_char(c: char) -> char {
    if 'A' <= c && c <= 'Z' {
        ((c as int) + 32) as char
    } else {
        c
    }
}

/// The sequence with its ASCII letters folded to lower case.
pub open spec fn ascii_lower(s: Seq<char>) -> Seq<char> {
    Seq::new(s.len(), |i: int| ascii_lower_char(s[i]))
}

/// Names the outcome of the case-insensitive literal substring test for a
/// haystack and a query: what matching the escaped query case-insensitively
/// against the haystack returns. The outcome depends on the two sequences
/// alone; it is invariant under ASCII case changes of the query, so it is
/// applied to the folded query.
pub uninterp spec fn ci_match(hay: Seq<char>, folded_query: Seq<char>) -> bool;

/// Relies on regex::escape, regex::Regex::new and regex::Regex::is_match:
/// the escaped query matches as literal text, case-insensitively, so the
/// outcome is a function of the haystack and the query's folded characters,
/// and the empty query matches every haystack. A query too large to compile
/// is treated as matching nothing.
#[verifier::external_body]
fn ci_contains(hay: &str, query: &str) -> (r: bool)
    ensures
        r == ci_match(hay@, ascii_lower(query@)),
        query@.len() == 0 ==> r,
{
    let pattern = format!("(?i){}", regex::escape(query));
    match regex::Regex::new(&pattern) {
        Ok(re) => re.is_match(hay),
        Err(_) => false,
    }
}

/// The keys that match the folded query, in their given order.
pub open spec fn search_spec(keys: Seq<Seq<char>>, folded_query: Seq<char>) -> Seq<Seq<char>>
    decreases keys.len(),
{
    if keys.len() == 0 {
        Seq::<Seq<char>>::empty()
    } else {
        let rest = search_spec(keys.drop_last(), folded_query);
        if ci_match(keys.last(), folded_query) {
            rest.push(keys.last())
        } else {
            rest
        }
    }
}

/// Queries that fold to the same characters select the same keys: the search
/// is insensitive to ASCII case differences in the query.
pub proof fn lemma_search_case_insensitive(keys: Seq<Seq<char>>, q1: Seq<char>, q2: Seq<char>)
    requires
        ascii_lower(q1) == ascii_lower(q2),
    ensures
        search_spec(keys, ascii_lower(q1)) == search_spec(keys, ascii_lower(q2)),
{
}

/// Every selected key is a key of the store.
pub proof fn lemma_search_subset(keys: Seq<Seq<char>>, folded_query: Seq<char>)
    ensures
        forall|t: Seq<char>|
            #[trigger] search_spec(keys, folded_query).contains(t) ==> keys.contains(t),
    decreases keys.len(),
{
    if keys.len() > 0 {
        lemma_search_subset(keys.drop_last(), folded_query);
        let rest = search_spec(keys.drop_last(), folded_query);
        assert forall|t: Seq<char>|
            #[trigger] search_spec(keys, folded_query).contains(t) implies keys.contains(t) by {
            let r = search_spec(keys, folded_query);
            let m = choose|m: int| 0 <= m < r.len() && #[trigger] r[m] == t;
            if ci_match(keys.last(), folded_query) {
                assert(r == rest.push(keys.last()));
                if m < rest.len() {
                    assert(rest[m] == t);
                    assert(rest.contains(t));
                    assert(keys.drop_last().contains(t));
                    let n = choose|n: int|
                        0 <= n < keys.drop_last().len() && #[trigger] keys.drop_last()[n] == t;
                    assert(keys[n] == t);
                } else {
                    assert(keys[keys.len() - 1] == t);
                }
            } else {
                assert(r == rest);
                assert(rest.contains(t));
                assert(keys.drop_last().contains(t));
                let n = choose|n: int|
                    0 <= n < keys.drop_last().len() && #[trigger] keys.drop_last()[n] == t;
                assert(keys[n] == t);
            }
        }
    }
}

/// The selection preserves the store's order: keys in strictly ascending
/// order stay in strictly ascending order.
pub proof fn lemma_search_preserves_order(keys: Seq<Seq<char>>, folded_query: Seq<char>)
    requires
        forall|i: int, j: int| 0 <= i < j < keys.len() ==> lex_lt(#[trigger] keys[i], #[trigger] keys[j]),
    ensures
        forall|i: int, j: int|
            0 <= i < j < search_spec(keys, folded_query).len() ==> lex_lt(
                #[trigger] search_spec(keys, folded_query)[i],
                #[trigger] search_spec(keys, folded_query)[j],
            ),
    decreases keys.len(),
{
    if keys.len() > 0 {
        assert forall|i: int, j: int|
            0 <= i < j < keys.drop_last().len() implies lex_lt(
            #[trigger] keys.drop_last()[i],
            #[trigger] keys.drop_last()[j],
        ) by {
            assert(keys.drop_last()[i] == keys[i]);
            assert(keys.drop_last()[j] == keys[j]);
        }
        lemma_search_preserves_order(keys.drop_last(), folded_query);
        lemma_search_subset(keys.drop_last(), folded_query);
        let rest = search_spec(keys.drop_last(), folded_query);
        let r = search_spec(keys, folded_query);
        assert forall|i: int, j: int| 0 <= i < j < r.len() implies lex_lt(
            #[trigger] r[i],
            #[trigger] r[j],
        ) by {
            if ci_match(keys.last(), folded_query) {
                assert(r == rest.push(keys.last()));
                if j < rest.len() {
                    assert(r[i] == rest[i] && r[j] == rest[j]);
                } else {
                    assert(r[i] == rest[i]);
                    assert(rest.contains(rest[i]));
                    assert(keys.drop_last().contains(rest[i]));
                    let n = choose|n: int|
                        0 <= n < keys.drop_last().len() && #[trigger] keys.drop_last()[n] == rest[
                        i];
                    assert(keys[n] == rest[i]);
                    assert(lex_lt(keys[n], keys[keys.len() - 1]));
                    assert(r[j] == keys.last());
                }
            } else {
                assert(r == rest);
            }
        }
    }
}

/// Filters the store's keys by the query, taken as literal text and compared
/// case-insensitively. The empty query selects every key, in store order.
pub fn search(store: &AssociationStore, query: &str) -> (r: Vec<String>)
    ensures
        r.deep_view() == search_spec(store.spec_keys(), ascii_lower(query@)),
        query@.len() == 0 ==> r.deep_view() == store.spec_keys(),
{
    let ghost keys = store.spec_keys();
    let ghost fq = ascii_lower(query@);
    let mut r: Vec<String> = Vec::new();
    let mut i: usize = 0;
    proof {
        assert(keys.take(0) =~= Seq::<Seq<char>>::empty());
        assert(r.deep_view() =~= search_spec(keys.take(0), fq));
    }
    while i < store.len()
        invariant
            keys == store.spec_keys(),
            fq == ascii_lower(query@),
            keys.len() == store.view_pairs().len(),
            i <= keys.len(),
            r.deep_view() == search_spec(keys.take(i as int), fq),
            query@.len() == 0 ==> r.deep_view() == keys.take(i as int),
        decreases keys.len() - i,
    {
        proof {
            assert(keys.take(i + 1).drop_last() =~= keys.take(i as int));
            assert(keys.take(i + 1).last() == keys[i as int]);
            assert(store.records@[i as int].mime_type@ == keys[i as int]);
        }
        let matched = ci_contains(store.records[i].mime_type.as_str(), query);
        if matched {
            let ghost pre = r.deep_view();
            let ghost pre_vec = r@;
            let kc = store.records[i].mime_type.clone();
            let ghost kv = kc@;
            r.push(kc);
            proof {
                assert forall|j: int| 0 <= j < r@.len() implies r.deep_view()[j] == pre.push(
                    kv,
                )[j] by {
                    if j < pre_vec.len() {
                        assert(r@[j] == pre_vec[j]);
                        assert(pre[j] == pre_vec[j].deep_view());
                    }
                }
                assert(r.deep_view() =~= pre.push(kv));
                assert(r.deep_view() =~= search_spec(keys.take(i + 1), fq));
                if query@.len() == 0 {
                    assert(r.deep_view() =~= keys.take(i + 1));
                }
            }
        } else {
            proof {
                assert(r.deep_view() =~= search_spec(keys.take(i + 1), fq));
            }
        }
        i = i + 1;
    }
    proof {
        assert(keys.take(keys.len() as int) =~= keys);
    }
    r
}

} // verus!
