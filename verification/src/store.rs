//! The association store: the entries of every source merged into one
//! mapping, each key listed once, its handlers deduplicated and sorted, the
//! keys themselves in ascending lexicographic order. The store is built once
//! and read afterwards.
use crate::parse::RawEntry;
use crate::parse::entries_view;
use crate::parse::lemma_entries_tokens_nonempty;
use crate::parse::parse_text;
use crate::parse::parse_text_spec;
use crate::text::lemma_lex_lt_asymmetric;
use crate::text::lemma_lex_lt_irreflexive;
use crate::text::lemma_lex_lt_total;
use crate::text::lemma_lex_lt_transitive;
use crate::text::lex_lt;
use crate::text::str_lt;
use vstd::prelude::*;

verus! {

/// Whether some entry of `pairs` carries the key `k`.
pub open spec fn has_key(pairs: Seq<(Seq<char>, Seq<Seq<char>>)>, k: Seq<char>) -> bool {
    exists|i: int| 0 <= i < pairs.len() && (#[trigger] pairs[i]).0 == k
}

/// Whether some entry of `pairs` with key `k` carries the token `t`.
pub open spec fn contributes(
    pairs: Seq<(Seq<char>, Seq<Seq<char>>)>,
    k: Seq<char>,
    t: Seq<char>,
) -> bool {
    exists|i: int, j: int|
        0 <= i < pairs.len() && 0 <= j < pairs[i].1.len() && (#[trigger] pairs[i]).0 == k && #[trigger] pairs[i].1[j] == t
}

/// No two entries carry the same key.
pub open spec fn unique_keys(pairs: Seq<(Seq<char>, Seq<Seq<char>>)>) -> bool {
    forall|i: int, j: int|
        0 <= i < j < pairs.len() ==> (#[trigger] pairs[i]).0 != (#[trigger] pairs[j]).0
}

/// The keys stand in strictly ascending lexicographic order.
pub open spec fn keys_sorted(rs: Seq<(Seq<char>, Seq<Seq<char>>)>) -> bool {
    forall|i: int, j: int|
        0 <= i < j < rs.len() ==> lex_lt((#[trigger] rs[i]).0, (#[trigger] rs[j]).0)
}

/// The tokens stand in strictly ascending lexicographic order, so each occurs once.
pub open spec fn tokens_sorted(hs: Seq<Seq<char>>) -> bool {
    forall|i: int, j: int| 0 <= i < j < hs.len() ==> lex_lt(#[trigger] hs[i], #[trigger] hs[j])
}

/// Every token is non-empty.
pub open spec fn tokens_nonempty(hs: Seq<Seq<char>>) -> bool {
    forall|i: int| 0 <= i < hs.len() ==> (#[trigger] hs[i]).len() > 0
}

/// What it means for a store's records `rs` to represent the parsed entries
/// `pairs`: the keys are exactly the contributed keys, in strict ascending
/// order, and each record's handler list holds exactly the tokens contributed
/// for its key, in strict ascending order with no duplicate.
pub open spec fn store_models(
    rs: Seq<(Seq<char>, Seq<Seq<char>>)>,
    pairs: Seq<(Seq<char>, Seq<Seq<char>>)>,
) -> bool {
    &&& keys_sorted(rs)
    &&& (forall|i: int| 0 <= i < rs.len() ==> tokens_sorted((#[trigger] rs[i]).1))
    &&& (forall|k: Seq<char>| #[trigger] has_key(rs, k) ==> has_key(pairs, k))
    &&& (forall|k: Seq<char>| #[trigger] has_key(pairs, k) ==> has_key(rs, k))
    &&& (forall|i: int, t: Seq<char>|
        0 <= i < rs.len() && #[trigger] rs[i].1.contains(t) ==> contributes(pairs, rs[i].0, t))
    &&& (forall|i: int, t: Seq<char>|
        0 <= i < rs.len() && #[trigger] contributes(pairs, rs[i].0, t) ==> rs[i].1.contains(t))
}

/// One record of the store: a mime type and its sorted handler list.
pub struct AssociationRecord {
    pub mime_type: String,
    pub handlers: Vec<String>,
}

impl AssociationRecord {
    /// The record as a pair of character sequences.
    pub open spec fn view_pair(self) -> (Seq<char>, Seq<Seq<char>>) {
        (self.mime_type@, self.handlers.deep_view())
    }
}

/// A sequence of records as pairs of character sequences.
pub open spec fn records_view(rs: Seq<AssociationRecord>) -> Seq<(Seq<char>, Seq<Seq<char>>)> {
    Seq::new(rs.len(), |i: int| rs[i].view_pair())
}

/// The association store, immutable once built.
pub struct AssociationStore {
    pub records: Vec<AssociationRecord>,
}

impl AssociationStore {
    /// The store's records as pairs of character sequences.
    pub open spec fn view_pairs(self) -> Seq<(Seq<char>, Seq<Seq<char>>)> {
        records_view(self.records@)
    }

    /// The store's keys, in their stored order.
    pub open spec fn spec_keys(self) -> Seq<Seq<char>> {
        Seq::new(self.view_pairs().len(), |i: int| self.view_pairs()[i].0)
    }

    /// Well-formedness: keys strictly ascending, each handler list strictly
    /// ascending and free of empty entries.
    pub open spec fn wf(self) -> bool {
        &&& keys_sorted(self.view_pairs())
        &&& (forall|i: int|
            0 <= i < self.view_pairs().len() ==> tokens_sorted(
                (#[trigger] self.view_pairs()[i]).1,
            ))
        &&& (forall|i: int|
            0 <= i < self.view_pairs().len() ==> tokens_nonempty(
                (#[trigger] self.view_pairs()[i]).1,
            ))
    }

    /// Where the record with key `k` stands, if one does.
    pub open spec fn record_index_of(self, k: Seq<char>) -> int {
        choose|i: int| 0 <= i < self.view_pairs().len() && (#[trigger] self.view_pairs()[i]).0 == k
    }

    /// The handler list stored under key `k`.
    pub open spec fn spec_handlers(self, k: Seq<char>) -> Seq<Seq<char>> {
        self.view_pairs()[self.record_index_of(k)].1
    }

    /// The number of records.
    pub fn len(&self) -> (n: usize)
        ensures
            n == self.view_pairs().len(),
    {
        self.records.len()
    }

    /// The store's keys, in their stored ascending order.
    pub fn keys(&self) -> (r: Vec<String>)
        ensures
            r.deep_view() == self.spec_keys(),
    {
        let mut r: Vec<String> = Vec::new();
        let mut i: usize = 0;
        while i < self.records.len()
            invariant
                i <= self.records.len(),
                r@.len() == i,
                forall|j: int| 0 <= j < i ==> (#[trigger] r@[j])@ == self.view_pairs()[j].0,
            decreases self.records.len() - i,
        {
            r.push(self.records[i].mime_type.clone());
            i = i + 1;
        }
        proof {
            assert(r.deep_view() =~= self.spec_keys());
        }
        r
    }

    /// The handlers recorded for `mime`, or `None` when the store has no such
    /// key.
    pub fn handlers_for(&self, mime: &str) -> (r: Option<Vec<String>>)
        requires
            self.wf(),
        ensures
            (r is Some) == has_key(self.view_pairs(), mime@),
            match r {
                Some(h) => h.deep_view() == self.spec_handlers(mime@),
                None => true,
            },
    {
        let mut i: usize = 0;
        while i < self.records.len()
            invariant
                self.wf(),
                i <= self.records.len(),
                forall|j: int| 0 <= j < i ==> (#[trigger] self.view_pairs()[j]).0 != mime@,
            decreases self.records.len() - i,
        {
            if crate::text::str_eq(self.records[i].mime_type.as_str(), mime) {
                proof {
                    assert(self.view_pairs()[i as int].0 == mime@);
                    assert(has_key(self.view_pairs(), mime@));
                    let m = self.record_index_of(mime@);
                    assert(self.view_pairs()[m].0 == mime@);
                    if m < i as int {
                        assert(lex_lt(self.view_pairs()[m].0, self.view_pairs()[i as int].0));
                        lemma_lex_lt_irreflexive(mime@);
                        assert(false);
                    }
                    if m > i as int {
                        assert(keys_sorted(self.view_pairs()));
                        assert((i as int) < m && m < self.view_pairs().len());
                        assert(lex_lt(self.view_pairs()[i as int].0, self.view_pairs()[m].0));
                        lemma_lex_lt_irreflexive(mime@);
                        assert(false);
                    }
                }
                return Some(clone_strings(&self.records[i].handlers));
            }
            i = i + 1;
        }
        proof {
            if has_key(self.view_pairs(), mime@) {
                let m = choose|m: int|
                    0 <= m < self.view_pairs().len() && (#[trigger] self.view_pairs()[m]).0
                        == mime@;
                assert(false);
            }
        }
        None
    }
}

/// The entries of all sources in order, earlier sources first.
pub open spec fn all_entries(sources: Seq<Seq<char>>) -> Seq<(Seq<char>, Seq<Seq<char>>)>
    decreases sources.len(),
{
    if sources.len() == 0 {
        Seq::<(Seq<char>, Seq<Seq<char>>)>::empty()
    } else {
        all_entries(sources.drop_last()) + parse_text_spec(sources.last())
    }
}

/// Appending one entry adds exactly its key.
pub proof fn lemma_push_has_key(
    pairs: Seq<(Seq<char>, Seq<Seq<char>>)>,
    e: (Seq<char>, Seq<Seq<char>>),
    k: Seq<char>,
)
    ensures
        has_key(pairs.push(e), k) <==> (has_key(pairs, k) || e.0 == k),
{
    if has_key(pairs.push(e), k) {
        let i = choose|i: int| 0 <= i < pairs.push(e).len() && (#[trigger] pairs.push(e)[i]).0 == k;
        if i < pairs.len() {
            assert(pairs[i] == pairs.push(e)[i]);
        }
    }
    if has_key(pairs, k) {
        let i = choose|i: int| 0 <= i < pairs.len() && (#[trigger] pairs[i]).0 == k;
        assert(pairs.push(e)[i] == pairs[i]);
    }
    if e.0 == k {
        assert(pairs.push(e)[pairs.len() as int].0 == k);
    }
}

/// Appending one entry adds exactly its tokens, under its key.
pub proof fn lemma_push_contributes(
    pairs: Seq<(Seq<char>, Seq<Seq<char>>)>,
    e: (Seq<char>, Seq<Seq<char>>),
    k: Seq<char>,
    t: Seq<char>,
)
    ensures
        contributes(pairs.push(e), k, t) <==> (contributes(pairs, k, t) || (e.0 == k
            && e.1.contains(t))),
{
    if contributes(pairs.push(e), k, t) {
        let (i, j) = choose|i: int, j: int|
            0 <= i < pairs.push(e).len() && 0 <= j < pairs.push(e)[i].1.len() && (#[trigger] pairs.push(
                e,
            )[i]).0 == k && #[trigger] pairs.push(e)[i].1[j] == t;
        if i < pairs.len() {
            assert(pairs[i] == pairs.push(e)[i]);
            assert(pairs[i].1[j] == t);
        } else {
            assert(e.1[j] == t);
        }
    }
    if contributes(pairs, k, t) {
        let (i, j) = choose|i: int, j: int|
            0 <= i < pairs.len() && 0 <= j < pairs[i].1.len() && (#[trigger] pairs[i]).0 == k
                && #[trigger] pairs[i].1[j] == t;
        assert(pairs.push(e)[i] == pairs[i]);
        assert(pairs.push(e)[i].1[j] == t);
    }
    if e.0 == k && e.1.contains(t) {
        let j = choose|j: int| 0 <= j < e.1.len() && e.1[j] == t;
        assert(pairs.push(e)[pairs.len() as int].1[j] == t);
    }
}

/// Folds one parsed entry into the accumulated records: an entry whose key is
/// already present adds its tokens to that record, a new key adds a record.
fn merge_entry(acc: &mut Vec<RawEntry>, e: RawEntry)
    requires
        unique_keys(entries_view(old(acc)@)),
    ensures
        unique_keys(entries_view(final(acc)@)),
        forall|k: Seq<char>|
            #[trigger] has_key(entries_view(final(acc)@), k) <==> (has_key(
                entries_view(old(acc)@),
                k,
            ) || k == e.key@),
        forall|k: Seq<char>, t: Seq<char>|
            #[trigger] contributes(entries_view(final(acc)@), k, t) <==> (contributes(
                entries_view(old(acc)@),
                k,
                t,
            ) || (k == e.key@ && e.tokens.deep_view().contains(t))),
{
    let ghost ev0 = entries_view(acc@);
    let n: usize = acc.len();
    let mut idx: usize = 0;
    while idx < n && !(acc[idx].key == e.key)
        invariant
            n == acc.len(),
            idx <= n,
            acc@ == old(acc)@,
            forall|j: int| 0 <= j < idx ==> (#[trigger] acc@[j]).key@ != e.key@,
        decreases n - idx,
    {
        idx = idx + 1;
    }
    proof {
        assert(forall|j: int|
            0 <= j < acc@.len() ==> (#[trigger] entries_view(acc@)[j]) == acc@[j].view_pair());
    }
    if idx < n {
        let mut rec = acc.swap_remove(idx);
        let ghost mid = acc@;
        let mut tks = e.tokens;
        let ghost rec_old_tokens = rec.tokens.deep_view();
        rec.tokens.append(&mut tks);
        proof {
            assert(rec.tokens.deep_view() =~= rec_old_tokens + e.tokens.deep_view());
        }
        acc.push(rec);
        proof {
            let orig = old(acc)@;
            let evf = entries_view(acc@);
            let lastpos = mid.len() as int;
            assert(acc@ == mid.push(rec));
            assert(forall|m: int|
                0 <= m < acc@.len() ==> (#[trigger] evf[m]) == acc@[m].view_pair());
            assert(forall|m: int|
                0 <= m < orig.len() ==> (#[trigger] ev0[m]) == orig[m].view_pair());
            assert(orig[idx as int].key@ == e.key@);
            assert(rec.key@ == orig[idx as int].key@);
            // each slot m below lastpos shows the old record at src(m)
            assert forall|m: int| 0 <= m < lastpos implies #[trigger] evf[m] == ev0[
                if m == idx as int {
                    orig.len() - 1
                } else {
                    m
                }
            ] by {
                if m == idx as int {
                    assert(mid[m] == orig[orig.len() - 1]);
                } else {
                    assert(mid[m] == orig[m]);
                }
            }
            // unique keys
            assert forall|i: int, j: int| 0 <= i < j < evf.len() implies (#[trigger] evf[i]).0 != (
            #[trigger] evf[j]).0 by {
                let si: int = if i == idx as int {
                    orig.len() - 1
                } else {
                    i
                };
                if j < lastpos {
                    let sj: int = if j == idx as int {
                        orig.len() - 1
                    } else {
                        j
                    };
                    assert(evf[i] == ev0[si]);
                    assert(evf[j] == ev0[sj]);
                    assert(si != sj);
                    assert(ev0[si].0 != ev0[sj].0);
                } else {
                    assert(evf[i] == ev0[si]);
                    assert(evf[j].0 == ev0[idx as int].0);
                    assert(si != idx as int);
                    assert(ev0[si].0 != ev0[idx as int].0);
                }
            }
            // key set unchanged: the found key was already present
            assert forall|k: Seq<char>| #[trigger] has_key(evf, k) implies (has_key(ev0, k) || k
                == e.key@) by {
                let m = choose|m: int| 0 <= m < evf.len() && (#[trigger] evf[m]).0 == k;
                if m < lastpos {
                    let sm: int = if m == idx as int {
                        orig.len() - 1
                    } else {
                        m
                    };
                    assert(ev0[sm].0 == k);
                } else {
                    assert(ev0[idx as int].0 == k);
                }
            }
            assert forall|k: Seq<char>| has_key(ev0, k) || k == e.key@ implies #[trigger] has_key(
                evf,
                k,
            ) by {
                if k == e.key@ {
                    assert(evf[lastpos].0 == k);
                } else {
                    let i0 = choose|i0: int| 0 <= i0 < ev0.len() && (#[trigger] ev0[i0]).0 == k;
                    if i0 == idx as int {
                        assert(evf[lastpos].0 == ev0[idx as int].0);
                    } else if i0 == orig.len() - 1 {
                        assert(evf[idx as int] == ev0[i0]);
                    } else {
                        assert(evf[i0] == ev0[i0]);
                    }
                }
            }
            // token sets
            assert forall|k: Seq<char>, t: Seq<char>| #[trigger] contributes(evf, k, t) implies (
            contributes(ev0, k, t) || (k == e.key@ && e.tokens.deep_view().contains(t))) by {
                let (m, j) = choose|m: int, j: int|
                    0 <= m < evf.len() && 0 <= j < evf[m].1.len() && (#[trigger] evf[m]).0 == k
                        && #[trigger] evf[m].1[j] == t;
                if m < lastpos {
                    let sm: int = if m == idx as int {
                        orig.len() - 1
                    } else {
                        m
                    };
                    assert(ev0[sm].0 == k && ev0[sm].1[j] == t);
                } else {
                    assert(evf[m].1 == rec_old_tokens + e.tokens.deep_view());
                    assert(k == ev0[idx as int].0);
                    if j < rec_old_tokens.len() {
                        assert(ev0[idx as int].1[j] == t);
                    } else {
                        assert(e.tokens.deep_view()[j - rec_old_tokens.len()] == t);
                        assert(e.tokens.deep_view().contains(t));
                    }
                }
            }
            assert forall|k: Seq<char>, t: Seq<char>|
                contributes(ev0, k, t) || (k == e.key@
                    && e.tokens.deep_view().contains(t)) implies #[trigger] contributes(
                evf,
                k,
                t,
            ) by {
                assert(evf[lastpos].1 == rec_old_tokens + e.tokens.deep_view());
                if contributes(ev0, k, t) {
                    let (i0, j) = choose|i0: int, j: int|
                        0 <= i0 < ev0.len() && 0 <= j < ev0[i0].1.len() && (#[trigger] ev0[i0]).0
                            == k && #[trigger] ev0[i0].1[j] == t;
                    if i0 == idx as int {
                        assert(evf[lastpos].1[j] == t);
                        assert(evf[lastpos].0 == k);
                    } else if i0 == orig.len() - 1 {
                        assert(evf[idx as int] == ev0[i0]);
                        assert(evf[idx as int].0 == k && evf[idx as int].1[j] == t);
                    } else {
                        assert(evf[i0] == ev0[i0]);
                        assert(evf[i0].0 == k && evf[i0].1[j] == t);
                    }
                } else {
                    let j = choose|j: int|
                        0 <= j < e.tokens.deep_view().len() && e.tokens.deep_view()[j] == t;
                    assert(evf[lastpos].1[rec_old_tokens.len() + j] == t);
                    assert(evf[lastpos].0 == ev0[idx as int].0);
                }
            }
        }
    } else {
        let ghost ep = e.view_pair();
        acc.push(e);
        proof {
            let evf = entries_view(acc@);
            assert(forall|m: int|
                0 <= m < acc@.len() ==> (#[trigger] evf[m]) == acc@[m].view_pair());
            assert(evf =~= ev0.push(ep));
            lemma_push_has_key(ev0, ep, ep.0);
            assert forall|k: Seq<char>| #[trigger] has_key(evf, k) implies (has_key(ev0, k) || k
                == e.key@) by {
                lemma_push_has_key(ev0, ep, k);
            }
            assert forall|k: Seq<char>| has_key(ev0, k) || k == e.key@ implies #[trigger] has_key(
                evf,
                k,
            ) by {
                lemma_push_has_key(ev0, ep, k);
            }
            assert forall|k: Seq<char>, t: Seq<char>| #[trigger] contributes(evf, k, t) implies (
            contributes(ev0, k, t) || (k == e.key@ && e.tokens.deep_view().contains(t))) by {
                lemma_push_contributes(ev0, ep, k, t);
            }
            assert forall|k: Seq<char>, t: Seq<char>|
                contributes(ev0, k, t) || (k == e.key@
                    && e.tokens.deep_view().contains(t)) implies #[trigger] contributes(
                evf,
                k,
                t,
            ) by {
                lemma_push_contributes(ev0, ep, k, t);
            }
            assert forall|i: int, j: int| 0 <= i < j < evf.len() implies (#[trigger] evf[i]).0 != (
            #[trigger] evf[j]).0 by {
                if j == evf.len() - 1 {
                    assert(!has_key(ev0, e.key@));
                    assert(ev0[i].0 != ep.0);
                }
            }
        }
    }
}

/// Copies a list of strings.
pub(crate) fn clone_strings(v: &Vec<String>) -> (r: Vec<String>)
    ensures
        r@ == v@,
{
    let mut r: Vec<String> = Vec::new();
    let mut i: usize = 0;
    while i < v.len()
        invariant
            i <= v.len(),
            r@ == v@.take(i as int),
        decreases v.len() - i,
    {
        r.push(v[i].clone());
        proof {
            assert(r@ =~= v@.take(i + 1));
        }
        i = i + 1;
    }
    proof {
        assert(v@.take(v@.len() as int) =~= v@);
    }
    r
}

/// Sorts a token list ascending and drops exact duplicates: the result is
/// strictly sorted and holds exactly the input's distinct values.
fn sorted_unique(v: &Vec<String>) -> (r: Vec<String>)
    ensures
        tokens_sorted(r.deep_view()),
        forall|t: Seq<char>|
            #[trigger] r.deep_view().contains(t) <==> v.deep_view().contains(t),
{
    let mut out: Vec<String> = Vec::new();
    let mut i: usize = 0;
    while i < v.len()
        invariant
            i <= v.len(),
            v.deep_view().len() == v.len(),
            tokens_sorted(out.deep_view()),
            forall|t: Seq<char>|
                #[trigger] out.deep_view().contains(t) <==> v.deep_view().take(i as int).contains(
                    t,
                ),
        decreases v.len() - i,
    {
        let x = v[i].clone();
        proof {
            assert(x@ == v.deep_view()[i as int]);
        }
        let mut pos: usize = 0;
        while pos < out.len() && str_lt(out[pos].as_str(), x.as_str())
            invariant
                pos <= out.len(),
                out.deep_view().len() == out.len(),
                forall|j: int| 0 <= j < pos ==> lex_lt(#[trigger] out.deep_view()[j], x@),
            decreases out.len() - pos,
        {
            proof {
                assert(out[pos as int]@ == out.deep_view()[pos as int]);
            }
            pos = pos + 1;
        }
        let ghost odv = out.deep_view();
        let duplicate = pos < out.len() && out[pos] == x;
        if !duplicate {
            proof {
                if pos < out.len() {
                    lemma_lex_lt_total(odv[pos as int], x@);
                    assert(out[pos as int]@ == odv[pos as int]);
                    assert(lex_lt(x@, odv[pos as int]));
                }
            }
            let ghost pre_vec = out@;
            out.insert(pos, x);
            proof {
                assert(out@ == pre_vec.insert(pos as int, x));
                assert forall|m: int| 0 <= m < out@.len() implies #[trigger] out.deep_view()[m] == (
                    if m < pos as int {
                        odv[m]
                    } else if m == pos as int {
                        x@
                    } else {
                        odv[m - 1]
                    }
                ) by {
                    if m < pos as int {
                        assert(out@[m] == pre_vec[m]);
                        assert(odv[m] == pre_vec[m].deep_view());
                    } else if m == pos as int {
                        assert(out@[m] == x);
                    } else {
                        assert(out@[m] == pre_vec[m - 1]);
                        assert(odv[m - 1] == pre_vec[m - 1].deep_view());
                    }
                }
                assert forall|a: int, b: int| 0 <= a < b < out.deep_view().len() implies lex_lt(
                    #[trigger] out.deep_view()[a],
                    #[trigger] out.deep_view()[b],
                ) by {
                    let da = out.deep_view()[a];
                    let db = out.deep_view()[b];
                    if a < pos as int && b == pos as int {
                        assert(lex_lt(da, db));
                    } else if a == pos as int && b > pos as int {
                        if pos < odv.len() {
                            if b - 1 > pos as int {
                                lemma_lex_lt_transitive(x@, odv[pos as int], odv[b - 1]);
                            }
                        }
                    } else if a < pos as int && b > pos as int {
                        if b - 1 == a {
                            lemma_lex_lt_transitive(odv[a], x@, odv[b - 1]);
                        } else {
                            assert(lex_lt(odv[a], odv[b - 1]));
                        }
                    } else {
                        assert(lex_lt(odv[a], odv[b - 1]) || lex_lt(odv[a], x@) || lex_lt(
                            da,
                            db,
                        ));
                    }
                }
                assert forall|t: Seq<char>| #[trigger] out.deep_view().contains(t) implies (
                odv.contains(t) || t == x@) by {
                    let m = choose|m: int|
                        0 <= m < out.deep_view().len() && #[trigger] out.deep_view()[m] == t;
                    if m < pos as int {
                        assert(odv[m] == t);
                    } else if m > pos as int {
                        assert(odv[m - 1] == t);
                    }
                }
                assert forall|t: Seq<char>| odv.contains(t) || t
                    == x@ implies #[trigger] out.deep_view().contains(t) by {
                    if t == x@ {
                        assert(out.deep_view()[pos as int] == t);
                    } else {
                        let m = choose|m: int| 0 <= m < odv.len() && #[trigger] odv[m] == t;
                        if m < pos as int {
                            assert(out.deep_view()[m] == t);
                        } else {
                            assert(out.deep_view()[m + 1] == t);
                        }
                    }
                }
            }
        } else {
            proof {
                assert(out[pos as int]@ == odv[pos as int]);
                assert(odv.contains(x@)) by {
                    assert(odv[pos as int] == x@);
                }
            }
        }
        proof {
            assert forall|t: Seq<char>| #[trigger] v.deep_view().take(i + 1).contains(t) implies (
            v.deep_view().take(i as int).contains(t) || t == x@) by {
                let m = choose|m: int|
                    0 <= m < v.deep_view().take(i + 1).len() && #[trigger] v.deep_view().take(
                        i + 1,
                    )[m] == t;
                if m < i as int {
                    assert(v.deep_view().take(i as int)[m] == t);
                }
            }
            assert forall|t: Seq<char>|
                v.deep_view().take(i as int).contains(t) || t
                    == x@ implies #[trigger] v.deep_view().take(i + 1).contains(t) by {
                if t == x@ {
                    assert(v.deep_view().take(i + 1)[i as int] == t);
                } else {
                    let m = choose|m: int|
                        0 <= m < v.deep_view().take(i as int).len() && #[trigger] v.deep_view().take(
                            i as int,
                        )[m] == t;
                    assert(v.deep_view().take(i + 1)[m] == t);
                }
            }
        }
        i = i + 1;
    }
    proof {
        assert(v.deep_view().take(v.deep_view().len() as int) =~= v.deep_view());
    }
    out
}

/// Inserts a record with a fresh key at its sorted position.
fn insert_record(out: &mut Vec<AssociationRecord>, rec: AssociationRecord)
    requires
        keys_sorted(records_view(old(out)@)),
        !has_key(records_view(old(out)@), rec.mime_type@),
    ensures
        keys_sorted(records_view(final(out)@)),
        forall|p: (Seq<char>, Seq<Seq<char>>)|
            #[trigger] records_view(final(out)@).contains(p) <==> (records_view(
                old(out)@,
            ).contains(p) || p == rec.view_pair()),
{
    let ghost rv0 = records_view(out@);
    proof {
        assert(forall|m: int|
            0 <= m < out@.len() ==> (#[trigger] rv0[m]) == out@[m].view_pair());
    }
    let mut pos: usize = 0;
    while pos < out.len() && str_lt(out[pos].mime_type.as_str(), rec.mime_type.as_str())
        invariant
            pos <= out.len(),
            out@ == old(out)@,
            rv0 == records_view(out@),
            rv0.len() == out@.len(),
            forall|j: int| 0 <= j < pos ==> lex_lt((#[trigger] rv0[j]).0, rec.mime_type@),
        decreases out.len() - pos,
    {
        proof {
            assert(out@[pos as int].mime_type@ == rv0[pos as int].0);
        }
        pos = pos + 1;
    }
    proof {
        if pos < out.len() {
            assert(out@[pos as int].mime_type@ == rv0[pos as int].0);
            lemma_lex_lt_total(rv0[pos as int].0, rec.mime_type@);
            assert(rv0[pos as int].0 != rec.mime_type@);
            assert(lex_lt(rec.mime_type@, rv0[pos as int].0));
        }
    }
    let ghost pre_vec = out@;
    let ghost rp = rec.view_pair();
    out.insert(pos, rec);
    proof {
        let rvf = records_view(out@);
        assert(out@ == pre_vec.insert(pos as int, rec));
        assert forall|m: int| 0 <= m < out@.len() implies #[trigger] rvf[m] == (
            if m < pos as int {
                rv0[m]
            } else if m == pos as int {
                rp
            } else {
                rv0[m - 1]
            }
        ) by {
            if m < pos as int {
                assert(out@[m] == pre_vec[m]);
            } else if m > pos as int {
                assert(out@[m] == pre_vec[m - 1]);
            }
        }
        assert forall|a: int, b: int| 0 <= a < b < rvf.len() implies lex_lt(
            (#[trigger] rvf[a]).0,
            (#[trigger] rvf[b]).0,
        ) by {
            if a == pos as int && b > pos as int {
                if pos < rv0.len() {
                    if b - 1 > pos as int {
                        lemma_lex_lt_transitive(rp.0, rv0[pos as int].0, rv0[b - 1].0);
                    }
                }
            } else if a < pos as int && b == pos as int {
                assert(lex_lt(rv0[a].0, rp.0));
            } else if a < pos as int && b > pos as int {
                if b - 1 == a {
                    lemma_lex_lt_transitive(rv0[a].0, rp.0, rv0[b - 1].0);
                } else {
                    assert(lex_lt(rv0[a].0, rv0[b - 1].0));
                }
            } else {
                if b < pos as int {
                    assert(lex_lt(rv0[a].0, rv0[b].0));
                } else {
                    assert(a > pos as int && b > pos as int);
                    assert(lex_lt(rv0[a - 1].0, rv0[b - 1].0));
                }
            }
        }
        assert forall|p: (Seq<char>, Seq<Seq<char>>)| #[trigger] rvf.contains(p) implies (
        rv0.contains(p) || p == rp) by {
            let m = choose|m: int| 0 <= m < rvf.len() && #[trigger] rvf[m] == p;
            if m < pos as int {
                assert(rv0[m] == p);
            } else if m > pos as int {
                assert(rv0[m - 1] == p);
            }
        }
        assert forall|p: (Seq<char>, Seq<Seq<char>>)| rv0.contains(p) || p
            == rp implies #[trigger] rvf.contains(p) by {
            if p == rp {
                assert(rvf[pos as int] == p);
            } else {
                let m = choose|m: int| 0 <= m < rv0.len() && #[trigger] rv0[m] == p;
                if m < pos as int {
                    assert(rvf[m] == p);
                } else {
                    assert(rvf[m + 1] == p);
                }
            }
        }
    }
}

/// Every token any source's entry contributes is non-empty.
pub proof fn lemma_all_entries_tokens_nonempty(sources: Seq<Seq<char>>)
    ensures
        forall|i: int, j: int|
            0 <= i < all_entries(sources).len() && 0 <= j < all_entries(sources)[i].1.len()
                ==> (#[trigger] all_entries(sources)[i].1[j]).len() > 0,
    decreases sources.len(),
{
    if sources.len() > 0 {
        lemma_all_entries_tokens_nonempty(sources.drop_last());
        lemma_entries_tokens_nonempty(crate::text::lines_spec(sources.last()));
        let rest = all_entries(sources.drop_last());
        let tail = parse_text_spec(sources.last());
        assert forall|i: int, j: int|
            0 <= i < all_entries(sources).len() && 0 <= j < all_entries(
                sources,
            )[i].1.len() implies (#[trigger] all_entries(sources)[i].1[j]).len() > 0 by {
            assert(all_entries(sources) == rest + tail);
            if i < rest.len() {
                assert(all_entries(sources)[i] == rest[i]);
            } else {
                assert(all_entries(sources)[i] == tail[i - rest.len()]);
            }
        }
    }
}

/// Builds the association store from the texts of the sources, in their given
/// order: entries of all sources are merged by key, each key's tokens are
/// deduplicated and sorted ascending, and the records stand in ascending key
/// order. The result is independent of the sources' order.
pub fn build_store(sources: &Vec<String>) -> (store: AssociationStore)
    ensures
        store.wf(),
        store_models(store.view_pairs(), all_entries(sources.deep_view())),
{
    let ghost sdv = sources.deep_view();
    let mut acc: Vec<RawEntry> = Vec::new();
    let mut si: usize = 0;
    proof {
        assert(sdv.take(0) =~= Seq::<Seq<char>>::empty());
        assert(entries_view(acc@) =~= Seq::<(Seq<char>, Seq<Seq<char>>)>::empty());
        assert(all_entries(sdv.take(0)).len() == 0);
    }
    while si < sources.len()
        invariant
            si <= sources.len(),
            sdv == sources.deep_view(),
            sdv.len() == sources.len(),
            unique_keys(entries_view(acc@)),
            forall|k: Seq<char>|
                #[trigger] has_key(entries_view(acc@), k) <==> has_key(
                    all_entries(sdv.take(si as int)),
                    k,
                ),
            forall|k: Seq<char>, t: Seq<char>|
                #[trigger] contributes(entries_view(acc@), k, t) <==> contributes(
                    all_entries(sdv.take(si as int)),
                    k,
                    t,
                ),
        decreases sources.len() - si,
    {
        let entries = parse_text(sources[si].as_str());
        let ghost base = all_entries(sdv.take(si as int));
        let ghost full = entries_view(entries@);
        proof {
            assert(sources[si as int]@ == sdv[si as int]);
            assert(full == parse_text_spec(sdv[si as int]));
            assert(full.take(0) =~= Seq::<(Seq<char>, Seq<Seq<char>>)>::empty());
            assert(base + full.take(0) =~= base);
        }
        let mut ei: usize = 0;
        while ei < entries.len()
            invariant
                ei <= entries.len(),
                full == entries_view(entries@),
                full.len() == entries.len(),
                unique_keys(entries_view(acc@)),
                forall|k: Seq<char>|
                    #[trigger] has_key(entries_view(acc@), k) <==> has_key(
                        base + full.take(ei as int),
                        k,
                    ),
                forall|k: Seq<char>, t: Seq<char>|
                    #[trigger] contributes(entries_view(acc@), k, t) <==> contributes(
                        base + full.take(ei as int),
                        k,
                        t,
                    ),
            decreases entries.len() - ei,
        {
            let e = RawEntry {
                key: entries[ei].key.clone(),
                tokens: clone_strings(&entries[ei].tokens),
            };
            let ghost ep = full[ei as int];
            let ghost done = base + full.take(ei as int);
            let ghost ev_before = entries_view(acc@);
            proof {
                assert(full[ei as int] == entries@[ei as int].view_pair());
                assert(e.key@ == ep.0);
                assert(e.tokens.deep_view() =~= ep.1);
            }
            merge_entry(&mut acc, e);
            proof {
                assert(base + full.take(ei + 1) =~= done.push(ep));
                let evf = entries_view(acc@);
                assert forall|k: Seq<char>| #[trigger] has_key(evf, k) implies has_key(
                    done.push(ep),
                    k,
                ) by {
                    lemma_push_has_key(done, ep, k);
                }
                assert forall|k: Seq<char>| #[trigger] has_key(done.push(ep), k) implies has_key(
                    evf,
                    k,
                ) by {
                    lemma_push_has_key(done, ep, k);
                }
                assert forall|k: Seq<char>, t: Seq<char>| #[trigger] contributes(
                    evf,
                    k,
                    t,
                ) implies contributes(done.push(ep), k, t) by {
                    lemma_push_contributes(done, ep, k, t);
                }
                assert forall|k: Seq<char>, t: Seq<char>| #[trigger] contributes(
                    done.push(ep),
                    k,
                    t,
                ) implies contributes(evf, k, t) by {
                    lemma_push_contributes(done, ep, k, t);
                }
            }
            ei = ei + 1;
        }
        proof {
            assert(full.take(entries.len() as int) =~= full);
            assert(sdv.take(si + 1).drop_last() =~= sdv.take(si as int));
            assert(sdv.take(si + 1).last() == sdv[si as int]);
            assert(all_entries(sdv.take(si + 1)) == base + full);
        }
        si = si + 1;
    }
    proof {
        assert(sdv.take(sources.len() as int) =~= sdv);
    }
    let ghost ev = entries_view(acc@);
    let ghost pairs = all_entries(sdv);
    let mut recs: Vec<AssociationRecord> = Vec::new();
    let mut i: usize = 0;
    proof {
        assert(ev.take(0) =~= Seq::<(Seq<char>, Seq<Seq<char>>)>::empty());
        assert(records_view(recs@) =~= Seq::<(Seq<char>, Seq<Seq<char>>)>::empty());
    }
    while i < acc.len()
        invariant
            i <= acc.len(),
            ev == entries_view(acc@),
            ev.len() == acc.len(),
            unique_keys(ev),
            keys_sorted(records_view(recs@)),
            forall|idx: int|
                0 <= idx < records_view(recs@).len() ==> tokens_sorted(
                    (#[trigger] records_view(recs@)[idx]).1,
                ),
            forall|k: Seq<char>|
                #[trigger] has_key(records_view(recs@), k) <==> has_key(ev.take(i as int), k),
            forall|idx: int, t: Seq<char>|
                0 <= idx < records_view(recs@).len() && #[trigger] records_view(
                    recs@,
                )[idx].1.contains(t) ==> contributes(ev, records_view(recs@)[idx].0, t),
            forall|idx: int, t: Seq<char>|
                0 <= idx < records_view(recs@).len() && #[trigger] contributes(
                    ev,
                    records_view(recs@)[idx].0,
                    t,
                ) ==> records_view(recs@)[idx].1.contains(t),
        decreases acc.len() - i,
    {
        let ghost rv = records_view(recs@);
        let rec = AssociationRecord {
            mime_type: acc[i].key.clone(),
            handlers: sorted_unique(&acc[i].tokens),
        };
        let ghost rp = rec.view_pair();
        proof {
            assert(ev[i as int] == acc@[i as int].view_pair());
            assert(rec.mime_type@ == ev[i as int].0);
            // the new key is fresh among the processed records
            if has_key(rv, rec.mime_type@) {
                let m = choose|m: int|
                    0 <= m < ev.take(i as int).len() && (#[trigger] ev.take(i as int)[m]).0
                        == rec.mime_type@;
                assert(ev[m] == ev.take(i as int)[m]);
                assert(ev[m].0 == ev[i as int].0);
                assert(false);
            }
        }
        insert_record(&mut recs, rec);
        proof {
            let rvf = records_view(recs@);
            // sorted token lists carry over to the new record set
            assert forall|idx: int|
                0 <= idx < rvf.len() implies tokens_sorted((#[trigger] rvf[idx]).1) by {
                assert(rvf.contains(rvf[idx]));
                if rvf[idx] == rp {
                } else {
                    assert(rv.contains(rvf[idx]));
                    let m = choose|m: int| 0 <= m < rv.len() && #[trigger] rv[m] == rvf[idx];
                }
            }
            // keys now cover the processed prefix up to i + 1
            assert forall|k: Seq<char>| #[trigger] has_key(rvf, k) implies has_key(
                ev.take(i + 1),
                k,
            ) by {
                let m = choose|m: int| 0 <= m < rvf.len() && (#[trigger] rvf[m]).0 == k;
                assert(rvf.contains(rvf[m]));
                if rvf[m] == rp {
                    assert(ev.take(i + 1)[i as int].0 == k);
                } else {
                    assert(rv.contains(rvf[m]));
                    let m2 = choose|m2: int| 0 <= m2 < rv.len() && #[trigger] rv[m2] == rvf[m];
                    assert(has_key(rv, k));
                    let m3 = choose|m3: int|
                        0 <= m3 < ev.take(i as int).len() && (#[trigger] ev.take(i as int)[m3]).0
                            == k;
                    assert(ev.take(i + 1)[m3].0 == k);
                }
            }
            assert forall|k: Seq<char>| #[trigger] has_key(ev.take(i + 1), k) implies has_key(
                rvf,
                k,
            ) by {
                let m = choose|m: int|
                    0 <= m < ev.take(i + 1).len() && (#[trigger] ev.take(i + 1)[m]).0 == k;
                if m < i as int {
                    assert(ev.take(i as int)[m].0 == k);
                    assert(has_key(ev.take(i as int), k));
                    assert(has_key(rv, k));
                    let m2 = choose|m2: int| 0 <= m2 < rv.len() && (#[trigger] rv[m2]).0 == k;
                    assert(rv.contains(rv[m2]));
                    assert(rvf.contains(rv[m2]));
                    let m3 = choose|m3: int| 0 <= m3 < rvf.len() && #[trigger] rvf[m3] == rv[m2];
                    assert(rvf[m3].0 == k);
                } else {
                    assert(ev.take(i + 1)[m] == ev[i as int]);
                    assert(rp.0 == k);
                    assert(rvf.contains(rp));
                    let m3 = choose|m3: int| 0 <= m3 < rvf.len() && #[trigger] rvf[m3] == rp;
                    assert(rvf[m3].0 == k);
                }
            }
            // each record's tokens are exactly the contributions for its key
            assert forall|idx: int, t: Seq<char>|
                0 <= idx < rvf.len() && #[trigger] rvf[idx].1.contains(t) implies contributes(
                ev,
                rvf[idx].0,
                t,
            ) by {
                assert(rvf.contains(rvf[idx]));
                if rvf[idx] == rp {
                    assert(acc[i as int].tokens.deep_view().contains(t));
                    let j = choose|j: int|
                        0 <= j < acc[i as int].tokens.deep_view().len() && #[trigger] acc[
                            i as int
                        ].tokens.deep_view()[j] == t;
                    assert(ev[i as int].1[j] == t);
                    assert(ev[i as int].0 == rp.0);
                } else {
                    assert(rv.contains(rvf[idx]));
                    let m = choose|m: int| 0 <= m < rv.len() && #[trigger] rv[m] == rvf[idx];
                    assert(rv[m].1.contains(t));
                }
            }
            assert forall|idx: int, t: Seq<char>|
                0 <= idx < rvf.len() && #[trigger] contributes(ev, rvf[idx].0, t) implies rvf[
                idx
            ].1.contains(t) by {
                assert(rvf.contains(rvf[idx]));
                let (m, j) = choose|m: int, j: int|
                    0 <= m < ev.len() && 0 <= j < ev[m].1.len() && (#[trigger] ev[m]).0 == rvf[
                    idx
                    ].0 && #[trigger] ev[m].1[j] == t;
                if rvf[idx] == rp {
                    // by key uniqueness the witness is entry i itself
                    assert(ev[m].0 == ev[i as int].0);
                    if m != i as int {
                        assert(false);
                    }
                    assert(acc[i as int].tokens.deep_view()[j] == t);
                    assert(acc[i as int].tokens.deep_view().contains(t));
                } else {
                    assert(rv.contains(rvf[idx]));
                    let m2 = choose|m2: int| 0 <= m2 < rv.len() && #[trigger] rv[m2] == rvf[idx];
                    assert(contributes(ev, rv[m2].0, t));
                    assert(rv[m2].1.contains(t));
                }
            }
        }
        i = i + 1;
    }
    proof {
        assert(ev.take(acc.len() as int) =~= ev);
    }
    let store = AssociationStore { records: recs };
    proof {
        let rv = store.view_pairs();
        assert(rv == records_view(recs@));
        // transfer the acc-level equivalences to the full entry list
        assert forall|k: Seq<char>| #[trigger] has_key(rv, k) implies has_key(pairs, k) by {
            assert(has_key(ev, k));
        }
        assert forall|k: Seq<char>| #[trigger] has_key(pairs, k) implies has_key(rv, k) by {
            assert(has_key(ev, k));
        }
        assert forall|idx: int, t: Seq<char>|
            0 <= idx < rv.len() && #[trigger] rv[idx].1.contains(t) implies contributes(
            pairs,
            rv[idx].0,
            t,
        ) by {
            assert(contributes(ev, rv[idx].0, t));
        }
        assert forall|idx: int, t: Seq<char>|
            0 <= idx < rv.len() && #[trigger] contributes(pairs, rv[idx].0, t) implies rv[
            idx
        ].1.contains(t) by {
            assert(contributes(ev, rv[idx].0, t));
        }
        // non-empty handlers, from the parser's token cleaning
        lemma_all_entries_tokens_nonempty(sdv);
        assert forall|idx: int|
            0 <= idx < rv.len() implies tokens_nonempty((#[trigger] rv[idx]).1) by {
            assert forall|j: int| 0 <= j < rv[idx].1.len() implies (#[trigger] rv[idx].1[j]).len()
                > 0 by {
                assert(rv[idx].1.contains(rv[idx].1[j]));
                assert(contributes(pairs, rv[idx].0, rv[idx].1[j]));
                let (m, n) = choose|m: int, n: int|
                    0 <= m < pairs.len() && 0 <= n < pairs[m].1.len() && (#[trigger] pairs[m]).0
                        == rv[idx].0 && #[trigger] pairs[m].1[n] == rv[idx].1[j];
            }
        }
    }
    store
}

/// Two strictly sorted token lists with the same members are the same list.
pub proof fn lemma_sorted_tokens_equal(a: Seq<Seq<char>>, b: Seq<Seq<char>>)
    requires
        tokens_sorted(a),
        tokens_sorted(b),
        forall|t: Seq<char>| a.contains(t) <==> b.contains(t),
    ensures
        a == b,
    decreases a.len(),
{
    if a.len() == 0 {
        if b.len() > 0 {
            assert(b.contains(b[0]));
            assert(a.contains(b[0]));
            assert(false);
        }
        assert(a =~= b);
    } else if b.len() == 0 {
        assert(a.contains(a[0]));
        assert(b.contains(a[0]));
        assert(false);
    } else {
        assert(a.contains(a[0]));
        assert(b.contains(a[0]));
        let m = choose|m: int| 0 <= m < b.len() && #[trigger] b[m] == a[0];
        assert(b.contains(b[0]));
        assert(a.contains(b[0]));
        let n = choose|n: int| 0 <= n < a.len() && #[trigger] a[n] == b[0];
        if a[0] != b[0] {
            assert(m > 0 && n > 0);
            assert(lex_lt(b[0], b[m]));
            assert(lex_lt(a[0], a[n]));
            lemma_lex_lt_asymmetric(a[0], b[0]);
            assert(false);
        }
        let ta = a.skip(1);
        let tb = b.skip(1);
        assert forall|i: int, j: int| 0 <= i < j < ta.len() implies lex_lt(
            #[trigger] ta[i],
            #[trigger] ta[j],
        ) by {
            assert(ta[i] == a[i + 1] && ta[j] == a[j + 1]);
        }
        assert forall|i: int, j: int| 0 <= i < j < tb.len() implies lex_lt(
            #[trigger] tb[i],
            #[trigger] tb[j],
        ) by {
            assert(tb[i] == b[i + 1] && tb[j] == b[j + 1]);
        }
        assert forall|t: Seq<char>| #[trigger] ta.contains(t) implies tb.contains(t) by {
            let p = choose|p: int| 0 <= p < ta.len() && #[trigger] ta[p] == t;
            assert(a[p + 1] == t);
            assert(a.contains(t));
            assert(b.contains(t));
            let q = choose|q: int| 0 <= q < b.len() && #[trigger] b[q] == t;
            assert(lex_lt(a[0], a[p + 1]));
            if q == 0 {
                lemma_lex_lt_irreflexive(t);
                assert(false);
            }
            assert(tb[q - 1] == t);
        }
        assert forall|t: Seq<char>| #[trigger] tb.contains(t) implies ta.contains(t) by {
            let p = choose|p: int| 0 <= p < tb.len() && #[trigger] tb[p] == t;
            assert(b[p + 1] == t);
            assert(b.contains(t));
            assert(a.contains(t));
            let q = choose|q: int| 0 <= q < a.len() && #[trigger] a[q] == t;
            assert(lex_lt(b[0], b[p + 1]));
            if q == 0 {
                lemma_lex_lt_irreflexive(t);
                assert(false);
            }
            assert(ta[q - 1] == t);
        }
        lemma_sorted_tokens_equal(ta, tb);
        assert forall|i: int| 0 <= i < a.len() implies a[i] == b[i] by {
            if i > 0 {
                assert(a[i] == ta[i - 1]);
                assert(b[i] == tb[i - 1]);
            }
        }
        assert(a =~= b);
    }
}

/// Two sorted record lists with the same keys, and the same token set under
/// every shared key, are the same list.
pub proof fn lemma_sorted_records_equal(
    rs1: Seq<(Seq<char>, Seq<Seq<char>>)>,
    rs2: Seq<(Seq<char>, Seq<Seq<char>>)>,
)
    requires
        keys_sorted(rs1),
        keys_sorted(rs2),
        forall|i: int| 0 <= i < rs1.len() ==> tokens_sorted((#[trigger] rs1[i]).1),
        forall|i: int| 0 <= i < rs2.len() ==> tokens_sorted((#[trigger] rs2[i]).1),
        forall|k: Seq<char>| has_key(rs1, k) <==> has_key(rs2, k),
        forall|i1: int, i2: int, t: Seq<char>|
            #![trigger rs1[i1].1.contains(t), rs2[i2].1.contains(t)]
            0 <= i1 < rs1.len() && 0 <= i2 < rs2.len() && rs1[i1].0 == rs2[i2].0 ==> (rs1[
            i1].1.contains(t) <==> rs2[i2].1.contains(t)),
    ensures
        rs1 == rs2,
    decreases rs1.len(),
{
    if rs1.len() == 0 {
        if rs2.len() > 0 {
            assert(rs2[0].0 == rs2[0].0);
            assert(has_key(rs2, rs2[0].0));
            assert(has_key(rs1, rs2[0].0));
            let i = choose|i: int| 0 <= i < rs1.len() && (#[trigger] rs1[i]).0 == rs2[0].0;
            assert(false);
        }
        assert(rs1 =~= rs2);
    } else if rs2.len() == 0 {
        assert(has_key(rs1, rs1[0].0));
        assert(has_key(rs2, rs1[0].0));
        let i = choose|i: int| 0 <= i < rs2.len() && (#[trigger] rs2[i]).0 == rs1[0].0;
        assert(false);
    } else {
        assert(has_key(rs1, rs1[0].0));
        assert(has_key(rs2, rs1[0].0));
        let m = choose|m: int| 0 <= m < rs2.len() && (#[trigger] rs2[m]).0 == rs1[0].0;
        assert(has_key(rs2, rs2[0].0));
        assert(has_key(rs1, rs2[0].0));
        let n = choose|n: int| 0 <= n < rs1.len() && (#[trigger] rs1[n]).0 == rs2[0].0;
        if rs1[0].0 != rs2[0].0 {
            assert(m > 0 && n > 0);
            assert(lex_lt(rs2[0].0, rs2[m].0));
            assert(lex_lt(rs1[0].0, rs1[n].0));
            lemma_lex_lt_asymmetric(rs1[0].0, rs2[0].0);
            assert(false);
        }
        assert forall|t: Seq<char>| #[trigger] rs1[0].1.contains(t) implies rs2[0].1.contains(
            t,
        ) by {}
        assert forall|t: Seq<char>| #[trigger] rs2[0].1.contains(t) implies rs1[0].1.contains(
            t,
        ) by {}
        lemma_sorted_tokens_equal(rs1[0].1, rs2[0].1);
        assert(rs1[0] == rs2[0]);
        let ta = rs1.skip(1);
        let tb = rs2.skip(1);
        assert forall|i: int, j: int| 0 <= i < j < ta.len() implies lex_lt(
            (#[trigger] ta[i]).0,
            (#[trigger] ta[j]).0,
        ) by {
            assert(ta[i] == rs1[i + 1] && ta[j] == rs1[j + 1]);
        }
        assert forall|i: int, j: int| 0 <= i < j < tb.len() implies lex_lt(
            (#[trigger] tb[i]).0,
            (#[trigger] tb[j]).0,
        ) by {
            assert(tb[i] == rs2[i + 1] && tb[j] == rs2[j + 1]);
        }
        assert forall|i: int| 0 <= i < ta.len() implies tokens_sorted((#[trigger] ta[i]).1) by {
            assert(ta[i] == rs1[i + 1]);
        }
        assert forall|i: int| 0 <= i < tb.len() implies tokens_sorted((#[trigger] tb[i]).1) by {
            assert(tb[i] == rs2[i + 1]);
        }
        assert forall|k: Seq<char>| #[trigger] has_key(ta, k) implies has_key(tb, k) by {
            let p = choose|p: int| 0 <= p < ta.len() && (#[trigger] ta[p]).0 == k;
            assert(rs1[p + 1].0 == k);
            assert(has_key(rs1, k));
            assert(has_key(rs2, k));
            let q = choose|q: int| 0 <= q < rs2.len() && (#[trigger] rs2[q]).0 == k;
            assert(lex_lt(rs1[0].0, rs1[p + 1].0));
            if q == 0 {
                lemma_lex_lt_irreflexive(k);
                assert(false);
            }
            assert(tb[q - 1].0 == k);
        }
        assert forall|k: Seq<char>| #[trigger] has_key(tb, k) implies has_key(ta, k) by {
            let p = choose|p: int| 0 <= p < tb.len() && (#[trigger] tb[p]).0 == k;
            assert(rs2[p + 1].0 == k);
            assert(has_key(rs2, k));
            assert(has_key(rs1, k));
            let q = choose|q: int| 0 <= q < rs1.len() && (#[trigger] rs1[q]).0 == k;
            assert(lex_lt(rs2[0].0, rs2[p + 1].0));
            if q == 0 {
                lemma_lex_lt_irreflexive(k);
                assert(false);
            }
            assert(ta[q - 1].0 == k);
        }
        assert forall|i1: int, i2: int, t: Seq<char>|
            #![trigger ta[i1].1.contains(t), tb[i2].1.contains(t)]
            0 <= i1 < ta.len() && 0 <= i2 < tb.len() && ta[i1].0 == tb[i2].0 implies (ta[
        i1].1.contains(t) <==> tb[i2].1.contains(t)) by {
            assert(ta[i1] == rs1[i1 + 1]);
            assert(tb[i2] == rs2[i2 + 1]);
        }
        lemma_sorted_records_equal(ta, tb);
        assert forall|i: int| 0 <= i < rs1.len() implies rs1[i] == rs2[i] by {
            if i > 0 {
                assert(rs1[i] == ta[i - 1]);
                assert(rs2[i] == tb[i - 1]);
            }
        }
        assert(rs1 =~= rs2);
    }
}

/// The store is determined by what was contributed, not by how the
/// contributions were ordered or grouped: any two stores representing entry
/// lists with the same keys and the same tokens under each key are equal.
pub proof fn lemma_store_determined(
    rs1: Seq<(Seq<char>, Seq<Seq<char>>)>,
    rs2: Seq<(Seq<char>, Seq<Seq<char>>)>,
    pairs1: Seq<(Seq<char>, Seq<Seq<char>>)>,
    pairs2: Seq<(Seq<char>, Seq<Seq<char>>)>,
)
    requires
        store_models(rs1, pairs1),
        store_models(rs2, pairs2),
        forall|k: Seq<char>| #[trigger] has_key(pairs1, k) <==> has_key(pairs2, k),
        forall|k: Seq<char>, t: Seq<char>|
            #[trigger] contributes(pairs1, k, t) <==> contributes(pairs2, k, t),
    ensures
        rs1 == rs2,
{
    assert forall|k: Seq<char>| #[trigger] has_key(rs1, k) implies has_key(rs2, k) by {
        assert(has_key(pairs1, k));
    }
    assert forall|k: Seq<char>| #[trigger] has_key(rs2, k) implies has_key(rs1, k) by {
        assert(has_key(pairs2, k));
        assert(has_key(pairs1, k));
    }
    assert forall|i1: int, i2: int, t: Seq<char>|
        #![trigger rs1[i1].1.contains(t), rs2[i2].1.contains(t)]
        0 <= i1 < rs1.len() && 0 <= i2 < rs2.len() && rs1[i1].0 == rs2[i2].0 implies (rs1[
    i1].1.contains(t) <==> rs2[i2].1.contains(t)) by {
        if rs1[i1].1.contains(t) {
            assert(contributes(pairs1, rs1[i1].0, t));
            assert(contributes(pairs2, rs2[i2].0, t));
        }
        if rs2[i2].1.contains(t) {
            assert(contributes(pairs2, rs2[i2].0, t));
            assert(contributes(pairs1, rs1[i1].0, t));
        }
    }
    lemma_sorted_records_equal(rs1, rs2);
}

/// Keys and tokens of concatenated entry lists are those of the two parts.
pub proof fn lemma_concat_entries(
    p1: Seq<(Seq<char>, Seq<Seq<char>>)>,
    p2: Seq<(Seq<char>, Seq<Seq<char>>)>,
    k: Seq<char>,
    t: Seq<char>,
)
    ensures
        has_key(p1 + p2, k) <==> (has_key(p1, k) || has_key(p2, k)),
        contributes(p1 + p2, k, t) <==> (contributes(p1, k, t) || contributes(p2, k, t)),
{
    let c = p1 + p2;
    if has_key(c, k) {
        let i = choose|i: int| 0 <= i < c.len() && (#[trigger] c[i]).0 == k;
        if i < p1.len() {
            assert(p1[i] == c[i]);
        } else {
            assert(p2[i - p1.len()] == c[i]);
        }
    }
    if has_key(p1, k) {
        let i = choose|i: int| 0 <= i < p1.len() && (#[trigger] p1[i]).0 == k;
        assert(c[i] == p1[i]);
    }
    if has_key(p2, k) {
        let i = choose|i: int| 0 <= i < p2.len() && (#[trigger] p2[i]).0 == k;
        assert(c[i + p1.len()] == p2[i]);
    }
    if contributes(c, k, t) {
        let (i, j) = choose|i: int, j: int|
            0 <= i < c.len() && 0 <= j < c[i].1.len() && (#[trigger] c[i]).0 == k && #[trigger] c[
            i].1[j] == t;
        if i < p1.len() {
            assert(p1[i] == c[i]);
            assert(p1[i].1[j] == t);
        } else {
            assert(p2[i - p1.len()] == c[i]);
            assert(p2[i - p1.len()].1[j] == t);
        }
    }
    if contributes(p1, k, t) {
        let (i, j) = choose|i: int, j: int|
            0 <= i < p1.len() && 0 <= j < p1[i].1.len() && (#[trigger] p1[i]).0 == k && #[trigger] p1[
            i].1[j] == t;
        assert(c[i] == p1[i]);
        assert(c[i].1[j] == t);
    }
    if contributes(p2, k, t) {
        let (i, j) = choose|i: int, j: int|
            0 <= i < p2.len() && 0 <= j < p2[i].1.len() && (#[trigger] p2[i]).0 == k && #[trigger] p2[
            i].1[j] == t;
        assert(c[i + p1.len()] == p2[i]);
        assert(c[i + p1.len()].1[j] == t);
    }
}

/// The entries of a two-source list are the two sources' entries in order.
pub proof fn lemma_all_entries_two(s1: Seq<char>, s2: Seq<char>)
    ensures
        all_entries(seq![s1, s2]) == parse_text_spec(s1) + parse_text_spec(s2),
{
    let ss = seq![s1, s2];
    assert(ss.drop_last() =~= seq![s1]);
    assert(ss.last() == s2);
    assert(seq![s1].drop_last() =~= Seq::<Seq<char>>::empty());
    assert(all_entries(seq![s1]) == all_entries(Seq::<Seq<char>>::empty()) + parse_text_spec(s1));
    assert(all_entries(Seq::<Seq<char>>::empty()) + parse_text_spec(s1) =~= parse_text_spec(s1));
}

/// Merging two sources in either order yields the same store.
pub proof fn lemma_merge_order_independent(
    s1: Seq<char>,
    s2: Seq<char>,
    rs1: Seq<(Seq<char>, Seq<Seq<char>>)>,
    rs2: Seq<(Seq<char>, Seq<Seq<char>>)>,
)
    requires
        store_models(rs1, all_entries(seq![s1, s2])),
        store_models(rs2, all_entries(seq![s2, s1])),
    ensures
        rs1 == rs2,
{
    lemma_all_entries_two(s1, s2);
    lemma_all_entries_two(s2, s1);
    let a = parse_text_spec(s1);
    let b = parse_text_spec(s2);
    assert forall|k: Seq<char>| #[trigger] has_key(a + b, k) implies has_key(b + a, k) by {
        lemma_concat_entries(a, b, k, k);
        lemma_concat_entries(b, a, k, k);
    }
    assert forall|k: Seq<char>| #[trigger] has_key(b + a, k) implies has_key(a + b, k) by {
        lemma_concat_entries(a, b, k, k);
        lemma_concat_entries(b, a, k, k);
    }
    assert forall|k: Seq<char>, t: Seq<char>| #[trigger] contributes(a + b, k, t) implies contributes(
        b + a,
        k,
        t,
    ) by {
        lemma_concat_entries(a, b, k, t);
        lemma_concat_entries(b, a, k, t);
    }
    assert forall|k: Seq<char>, t: Seq<char>| #[trigger] contributes(b + a, k, t) implies contributes(
        a + b,
        k,
        t,
    ) by {
        lemma_concat_entries(a, b, k, t);
        lemma_concat_entries(b, a, k, t);
    }
    lemma_store_determined(rs1, rs2, a + b, b + a);
}

/// Merging a source twice yields the same store as merging it once.
pub proof fn lemma_merge_idempotent(
    s: Seq<char>,
    rs1: Seq<(Seq<char>, Seq<Seq<char>>)>,
    rs2: Seq<(Seq<char>, Seq<Seq<char>>)>,
)
    requires
        store_models(rs1, all_entries(seq![s])),
        store_models(rs2, all_entries(seq![s, s])),
    ensures
        rs1 == rs2,
{
    lemma_all_entries_two(s, s);
    let a = parse_text_spec(s);
    assert(seq![s].drop_last() =~= Seq::<Seq<char>>::empty());
    assert(all_entries(seq![s]) == all_entries(Seq::<Seq<char>>::empty()) + a);
    assert(all_entries(Seq::<Seq<char>>::empty()) + a =~= a);
    assert forall|k: Seq<char>| #[trigger] has_key(a, k) implies has_key(a + a, k) by {
        lemma_concat_entries(a, a, k, k);
    }
    assert forall|k: Seq<char>| #[trigger] has_key(a + a, k) implies has_key(a, k) by {
        lemma_concat_entries(a, a, k, k);
    }
    assert forall|k: Seq<char>, t: Seq<char>| #[trigger] contributes(a, k, t) implies contributes(
        a + a,
        k,
        t,
    ) by {
        lemma_concat_entries(a, a, k, t);
    }
    assert forall|k: Seq<char>, t: Seq<char>| #[trigger] contributes(a + a, k, t) implies contributes(
        a,
        k,
        t,
    ) by {
        lemma_concat_entries(a, a, k, t);
    }
    lemma_store_determined(rs1, rs2, a, a + a);
}

} // verus!
