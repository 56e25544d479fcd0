//! Character and string primitives the association store is specified with:
//! white space, trimming, lexicographic order on character sequences, and an
//! executable comparison of strings against that order.
use vstd::prelude::*;

verus! {

/// True of the Unicode white-space characters, the ones trimming removes.
pub open spec fn is_space_char(c: char) -> bool {
    c == ' ' || c == '\t' || c == '\n' || c == '\r' || c == '\u{0b}' || c == '\u{0c}'
        || c == '\u{85}' || c == '\u{a0}' || c == '\u{1680}' || ('\u{2000}' <= c && c
        <= '\u{200a}') || c == '\u{2028}' || c == '\u{2029}' || c == '\u{202f}' || c == '\u{205f}'
        || c == '\u{3000}'
}

/// Executable test for [`is_space_char`].
pub fn is_space(c: char) -> (r: bool)
    ensures
        r == is_space_char(c),
{
    c == ' ' || c == '\t' || c == '\n' || c == '\r' || c == '\u{0b}' || c == '\u{0c}'
        || c == '\u{85}' || c == '\u{a0}' || c == '\u{1680}' || ('\u{2000}' <= c && c
        <= '\u{200a}') || c == '\u{2028}' || c == '\u{2029}' || c == '\u{202f}' || c == '\u{205f}'
        || c == '\u{3000}'
}

/// The sequence without its leading white space.
pub open spec fn trim_front(s: Seq<char>) -> Seq<char>
    decreases s.len(),
{
    if s.len() > 0 && is_space_char(s[0]) {
        trim_front(s.skip(1))
    } else {
        s
    }
}

/// The sequence without its trailing white space.
pub open spec fn trim_back(s: Seq<char>) -> Seq<char>
    decreases s.len(),
{
    if s.len() > 0 && is_space_char(s[s.len() - 1]) {
        trim_back(s.take(s.len() - 1))
    } else {
        s
    }
}

/// The sequence without leading and trailing white space.
pub open spec fn trim_spec(s: Seq<char>) -> Seq<char> {
    trim_back(trim_front(s))
}

/// Strict lexicographic order on character sequences, by code point.
pub open spec fn lex_lt(a: Seq<char>, b: Seq<char>) -> bool
    decreases a.len(),
{
    if b.len() == 0 {
        false
    } else if a.len() == 0 {
        true
    } else if a[0] != b[0] {
        (a[0] as int) < (b[0] as int)
    } else {
        lex_lt(a.skip(1), b.skip(1))
    }
}

/// Lexicographic order, allowing equality.
pub open spec fn lex_le(a: Seq<char>, b: Seq<char>) -> bool {
    lex_lt(a, b) || a == b
}

pub proof fn lemma_lex_lt_irreflexive(a: Seq<char>)
    ensures
        !lex_lt(a, a),
    decreases a.len(),
{
    if a.len() > 0 {
        lemma_lex_lt_irreflexive(a.skip(1));
    }
}

/// Any two sequences are ordered one way or the other, or are equal.
pub proof fn lemma_lex_lt_total(a: Seq<char>, b: Seq<char>)
    ensures
        lex_lt(a, b) || lex_lt(b, a) || a == b,
    decreases a.len(),
{
    if a.len() == 0 && b.len() == 0 {
        assert(a =~= b);
    } else if a.len() > 0 && b.len() > 0 && a[0] == b[0] {
        lemma_lex_lt_total(a.skip(1), b.skip(1));
        if a.skip(1) == b.skip(1) {
            assert(a.skip(1).len() == a.len() - 1);
            assert(b.skip(1).len() == b.len() - 1);
            assert(b.len() == a.len());
            assert forall|i: int| 0 <= i < a.len() implies a[i] == b[i] by {
                if i > 0 {
                    assert(a[i] == a.skip(1)[i - 1]);
                    assert(b[i] == b.skip(1)[i - 1]);
                }
            }
            assert(a =~= b);
        }
    }
}

/// The order never holds in both directions at once.
pub proof fn lemma_lex_lt_asymmetric(a: Seq<char>, b: Seq<char>)
    ensures
        !(lex_lt(a, b) && lex_lt(b, a)),
    decreases a.len(),
{
    if a.len() > 0 && b.len() > 0 && a[0] == b[0] {
        lemma_lex_lt_asymmetric(a.skip(1), b.skip(1));
    }
}

pub proof fn lemma_lex_lt_transitive(a: Seq<char>, b: Seq<char>, c: Seq<char>)
    requires
        lex_lt(a, b),
        lex_lt(b, c),
    ensures
        lex_lt(a, c),
    decreases a.len(),
{
    if a.len() > 0 && b.len() > 0 && c.len() > 0 {
        if a[0] == b[0] && b[0] == c[0] {
            lemma_lex_lt_transitive(a.skip(1), b.skip(1), c.skip(1));
        }
    }
}

/// Compares two strings in the lexicographic order of their characters.
pub fn str_lt(a: &str, b: &str) -> (r: bool)
    ensures
        r == lex_lt(a@, b@),
{
    let la: usize = a.unicode_len();
    let lb: usize = b.unicode_len();
    let mut i: usize = 0;
    proof {
        assert(a@.skip(0) =~= a@);
        assert(b@.skip(0) =~= b@);
    }
    while i < la && i < lb
        invariant
            la == a@.len(),
            lb == b@.len(),
            i <= la,
            i <= lb,
            lex_lt(a@, b@) == lex_lt(a@.skip(i as int), b@.skip(i as int)),
        decreases la - i,
    {
        let ca = a.get_char(i);
        let cb = b.get_char(i);
        if (ca as u32) < (cb as u32) {
            return true;
        }
        if (cb as u32) < (ca as u32) {
            return false;
        }
        proof {
            assert(a@.skip(i as int).skip(1) =~= a@.skip(i + 1));
            assert(b@.skip(i as int).skip(1) =~= b@.skip(i + 1));
        }
        i = i + 1;
    }
    proof {
        if i == la && la < lb {
            assert(lex_lt(a@.skip(i as int), b@.skip(i as int)));
        }
        if i == lb {
            assert(!lex_lt(a@.skip(i as int), b@.skip(i as int)));
        }
    }
    la < lb
}

/// Compares two strings, allowing equality, in the same order.
pub fn str_le(a: &str, b: &str) -> (r: bool)
    ensures
        r == lex_le(a@, b@),
{
    let r = str_lt(b, a);
    proof {
        lemma_lex_lt_total(a@, b@);
        lemma_lex_lt_asymmetric(a@, b@);
        lemma_lex_lt_irreflexive(a@);
    }
    !r
}

/// Compares two strings for character-wise equality.
pub fn str_eq(a: &str, b: &str) -> (r: bool)
    ensures
        r == (a@ == b@),
{
    let la: usize = a.unicode_len();
    let lb: usize = b.unicode_len();
    if la != lb {
        return false;
    }
    let mut i: usize = 0;
    while i < la
        invariant
            la == a@.len(),
            la == b@.len(),
            i <= la,
            forall|j: int| 0 <= j < i ==> a@[j] == b@[j],
        decreases la - i,
    {
        if a.get_char(i) != b.get_char(i) {
            return false;
        }
        i = i + 1;
    }
    proof {
        assert(a@ =~= b@);
    }
    true
}

/// Copies a string with its leading and trailing white space removed.
pub fn trim_str(s: &str) -> (r: String)
    ensures
        r@ == trim_spec(s@),
{
    let len: usize = s.unicode_len();
    let mut start: usize = 0;
    proof {
        assert(s@.skip(0) =~= s@);
    }
    while start < len && is_space(s.get_char(start))
        invariant
            len == s@.len(),
            start <= len,
            trim_front(s@) == trim_front(s@.skip(start as int)),
        decreases len - start,
    {
        proof {
            assert(s@.skip(start as int).skip(1) =~= s@.skip(start + 1));
        }
        start = start + 1;
    }
    proof {
        if start == len {
            assert(s@.skip(start as int) =~= Seq::<char>::empty());
        }
        assert(trim_front(s@) == s@.skip(start as int));
    }
    let mut end: usize = len;
    while end > start && is_space(s.get_char(end - 1))
        invariant
            len == s@.len(),
            start <= end <= len,
            trim_front(s@) == s@.skip(start as int),
            trim_back(s@.skip(start as int)) == trim_back(s@.subrange(start as int, end as int)),
        decreases end,
    {
        proof {
            let cur = s@.subrange(start as int, end as int);
            assert(cur[cur.len() - 1] == s@[end - 1]);
            assert(cur.take(cur.len() - 1) =~= s@.subrange(start as int, end - 1));
        }
        end = end - 1;
    }
    proof {
        let cur = s@.subrange(start as int, end as int);
        if end == start {
            assert(cur =~= Seq::<char>::empty());
        }
        assert(trim_back(cur) == cur);
        assert(s@.skip(start as int) =~= s@.subrange(start as int, len as int));
    }
    let piece = s.substring_char(start, end);
    piece.to_owned()
}

/// The pieces of a sequence cut at every occurrence of `sep`; the separator
/// itself appears in no piece, and an empty input yields one empty piece.
pub open spec fn split_spec(s: Seq<char>, sep: char) -> Seq<Seq<char>>
    decreases s.len(),
{
    if s.len() == 0 {
        seq![Seq::<char>::empty()]
    } else {
        let rest = split_spec(s.skip(1), sep);
        if s[0] == sep {
            seq![Seq::<char>::empty()] + rest
        } else {
            seq![seq![s[0]] + rest[0]] + rest.skip(1)
        }
    }
}

pub proof fn lemma_split_len(s: Seq<char>, sep: char)
    ensures
        split_spec(s, sep).len() >= 1,
    decreases s.len(),
{
    if s.len() > 0 {
        lemma_split_len(s.skip(1), sep);
    }
}

/// Cutting a sequence extended by one character: a separator starts a new
/// empty piece, any other character lands at the end of the last piece.
pub proof fn lemma_split_push(s: Seq<char>, sep: char, c: char)
    ensures
        split_spec(s, sep).len() >= 1,
        c == sep ==> split_spec(s.push(c), sep) == split_spec(s, sep).push(Seq::<char>::empty()),
        c != sep ==> split_spec(s.push(c), sep) == split_spec(s, sep).update(
            split_spec(s, sep).len() - 1,
            split_spec(s, sep).last().push(c),
        ),
    decreases s.len(),
{
    lemma_split_len(s, sep);
    if s.len() == 0 {
        assert(s.push(c).skip(1) =~= Seq::<char>::empty());
        assert(s =~= Seq::<char>::empty());
        assert(split_spec(Seq::<char>::empty(), sep) == seq![Seq::<char>::empty()]);
        assert(s.push(c).len() == 1);
        assert(s.push(c)[0] == c);
        if c == sep {
            assert(split_spec(s.push(c), sep) =~= split_spec(s, sep).push(Seq::<char>::empty()));
        } else {
            assert(seq![c] + Seq::<char>::empty() =~= Seq::<char>::empty().push(c));
            assert(split_spec(s.push(c), sep) =~= split_spec(s, sep).update(
                0,
                split_spec(s, sep).last().push(c),
            ));
        }
    } else {
        lemma_split_push(s.skip(1), sep, c);
        lemma_split_len(s.skip(1), sep);
        assert(s.push(c).skip(1) =~= s.skip(1).push(c));
        let rest = split_spec(s.skip(1), sep);
        let restc = split_spec(s.skip(1).push(c), sep);
        if c == sep {
            if s[0] == sep {
                assert(split_spec(s.push(c), sep) =~= split_spec(s, sep).push(
                    Seq::<char>::empty(),
                ));
            } else {
                assert(restc[0] == rest[0]);
                assert(restc.skip(1) =~= rest.skip(1).push(Seq::<char>::empty()));
                assert(split_spec(s.push(c), sep) =~= split_spec(s, sep).push(
                    Seq::<char>::empty(),
                ));
            }
        } else {
            let target = split_spec(s, sep).update(
                split_spec(s, sep).len() - 1,
                split_spec(s, sep).last().push(c),
            );
            if s[0] == sep {
                assert(split_spec(s.push(c), sep) =~= target);
            } else {
                if rest.len() == 1 {
                    assert(restc[0] == rest[0].push(c));
                    assert(restc.skip(1) =~= rest.skip(1));
                    assert(split_spec(s, sep).last() == seq![s[0]] + rest[0]);
                    assert((seq![s[0]] + rest[0].push(c)) =~= (seq![s[0]] + rest[0]).push(c));
                    assert(split_spec(s.push(c), sep) =~= target);
                } else {
                    assert(restc[0] == rest[0]);
                    assert(restc.skip(1) =~= rest.skip(1).update(
                        rest.len() - 2,
                        rest.last().push(c),
                    ));
                    assert(split_spec(s.push(c), sep) =~= target);
                }
            }
        }
    }
}

/// Cuts a string at every occurrence of `sep`, keeping empty pieces.
pub fn split_str(s: &str, sep: char) -> (r: Vec<String>)
    ensures
        r.deep_view() == split_spec(s@, sep),
{
    let len: usize = s.unicode_len();
    let mut out: Vec<String> = Vec::new();
    let mut piece_start: usize = 0;
    let mut i: usize = 0;
    proof {
        assert(s@.take(0) =~= Seq::<char>::empty());
        assert(s@.subrange(0, 0) =~= Seq::<char>::empty());
        assert(out.deep_view().push(s@.subrange(0, 0)) =~= split_spec(s@.take(0), sep));
    }
    while i < len
        invariant
            len == s@.len(),
            piece_start <= i <= len,
            split_spec(s@.take(i as int), sep) == out.deep_view().push(
                s@.subrange(piece_start as int, i as int),
            ),
        decreases len - i,
    {
        let c = s.get_char(i);
        proof {
            assert(s@.take(i + 1) =~= s@.take(i as int).push(s@[i as int]));
            lemma_split_push(s@.take(i as int), sep, s@[i as int]);
        }
        if c == sep {
            let piece = s.substring_char(piece_start, i);
            out.push(piece.to_owned());
            piece_start = i + 1;
            proof {
                assert(s@.subrange(piece_start as int, i + 1) =~= Seq::<char>::empty());
                assert(split_spec(s@.take(i + 1), sep) =~= out.deep_view().push(
                    s@.subrange(piece_start as int, i + 1),
                ));
            }
        } else {
            proof {
                let prev = out.deep_view().push(s@.subrange(piece_start as int, i as int));
                assert(prev.last() == s@.subrange(piece_start as int, i as int));
                assert(s@.subrange(piece_start as int, i as int).push(s@[i as int]) =~= s@.subrange(
                    piece_start as int,
                    i + 1,
                ));
                assert(prev.update(prev.len() - 1, prev.last().push(s@[i as int]))
                    =~= out.deep_view().push(s@.subrange(piece_start as int, i + 1)));
            }
        }
        i = i + 1;
    }
    let piece = s.substring_char(piece_start, len);
    out.push(piece.to_owned());
    proof {
        assert(s@.take(len as int) =~= s@);
    }
    out
}

/// Where `c` first occurs in the sequence, if it occurs at all.
pub open spec fn find_first(s: Seq<char>, c: char) -> Option<int>
    decreases s.len(),
{
    if s.len() == 0 {
        None
    } else if s[0] == c {
        Some(0int)
    } else {
        match find_first(s.skip(1), c) {
            None => None,
            Some(i) => Some(i + 1),
        }
    }
}

/// `find_first` names the least index holding `c`, and `None` means `c` is absent.
pub proof fn lemma_find_first(s: Seq<char>, c: char)
    ensures
        match find_first(s, c) {
            None => forall|i: int| 0 <= i < s.len() ==> s[i] != c,
            Some(i) => 0 <= i < s.len() && s[i] == c && (forall|j: int| 0 <= j < i ==> s[j] != c),
        },
    decreases s.len(),
{
    if s.len() > 0 && s[0] != c {
        lemma_find_first(s.skip(1), c);
        match find_first(s.skip(1), c) {
            None => {
                assert forall|i: int| 0 <= i < s.len() implies s[i] != c by {
                    if i > 0 {
                        assert(s[i] == s.skip(1)[i - 1]);
                    }
                }
            },
            Some(i) => {
                assert(s[i + 1] == s.skip(1)[i]);
                assert forall|j: int| 0 <= j < i + 1 implies s[j] != c by {
                    if j > 0 {
                        assert(s[j] == s.skip(1)[j - 1]);
                    }
                }
            },
        }
    }
}

/// Finds the first occurrence of `c` in the string, as a character index.
pub fn find_char(s: &str, c: char) -> (r: Option<usize>)
    ensures
        match r {
            None => find_first(s@, c) is None,
            Some(i) => find_first(s@, c) == Some(i as int),
        },
{
    let len: usize = s.unicode_len();
    let mut i: usize = 0;
    while i < len
        invariant
            len == s@.len(),
            i <= len,
            forall|j: int| 0 <= j < i ==> s@[j] != c,
        decreases len - i,
    {
        if s.get_char(i) == c {
            proof {
                lemma_find_first(s@, c);
                match find_first(s@, c) {
                    None => {
                        assert(false);
                    },
                    Some(k) => {
                        assert(!(k < i as int));
                        assert(!(k > i as int)) by {
                            if k > i as int {
                                assert(s@[i as int] != c);
                            }
                        }
                    },
                }
            }
            return Some(i);
        }
        i = i + 1;
    }
    proof {
        lemma_find_first(s@, c);
    }
    None
}

/// A line's trailing carriage return, if any, is dropped.
pub open spec fn strip_cr(l: Seq<char>) -> Seq<char> {
    if l.len() > 0 && l[l.len() - 1] == '\r' {
        l.take(l.len() - 1)
    } else {
        l
    }
}

/// Each line without its trailing carriage return.
pub open spec fn strip_all(ls: Seq<Seq<char>>) -> Seq<Seq<char>> {
    Seq::new(ls.len(), |i: int| strip_cr(ls[i]))
}

/// The lines of a text: the pieces between newline characters, each without a
/// trailing carriage return.
pub open spec fn lines_spec(text: Seq<char>) -> Seq<Seq<char>> {
    strip_all(split_spec(text, '\n'))
}

/// Splits a text into its lines.
pub fn split_lines(text: &str) -> (r: Vec<String>)
    ensures
        r.deep_view() == lines_spec(text@),
{
    let raw = split_str(text, '\n');
    let mut out: Vec<String> = Vec::new();
    let mut i: usize = 0;
    proof {
        assert(out.deep_view() =~= strip_all(raw.deep_view()).take(0));
    }
    while i < raw.len()
        invariant
            i <= raw.len(),
            raw.deep_view().len() == raw.len(),
            out.deep_view() == strip_all(raw.deep_view()).take(i as int),
        decreases raw.len() - i,
    {
        let line = &raw[i];
        let ll: usize = line.as_str().unicode_len();
        let stripped: String;
        if ll > 0 && line.as_str().get_char(ll - 1) == '\r' {
            stripped = line.as_str().substring_char(0, ll - 1).to_owned();
        } else {
            stripped = line.clone();
        }
        proof {
            assert(stripped@ == strip_cr(raw.deep_view()[i as int]));
        }
        let ghost pre = out.deep_view();
        let ghost pre_vec = out@;
        let ghost stripped_view = stripped@;
        out.push(stripped);
        proof {
            assert forall|j: int| 0 <= j < out@.len() implies out.deep_view()[j] == pre.push(
                stripped_view,
            )[j] by {
                if j < pre_vec.len() {
                    assert(out@[j] == pre_vec[j]);
                    assert(pre[j] == pre_vec[j].deep_view());
                }
            }
            assert(out.deep_view() =~= pre.push(stripped_view));
            assert(out.deep_view() =~= strip_all(raw.deep_view()).take(i + 1));
        }
        i = i + 1;
    }
    proof {
        assert(strip_all(raw.deep_view()).take(raw.deep_view().len() as int) =~= strip_all(
            raw.deep_view(),
        ));
    }
    out
}

} // verus!
