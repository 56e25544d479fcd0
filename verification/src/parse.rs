//! The association-file line format: a line contributes handlers when it has
//! the shape `KEY=VALUE;`, where `KEY` is everything up to the first `=`
//! (trimmed) and `VALUE` is a `;`-separated token list whose final token is
//! closed by the line's last character, a `;`. Every other line is skipped.
use crate::text::find_char;
use crate::text::find_first;
use crate::text::lemma_find_first;
use crate::text::lines_spec;
use crate::text::split_spec;
use crate::text::split_lines;
use crate::text::split_str;
use crate::text::trim_spec;
use crate::text::trim_str;
use vstd::prelude::*;

verus! {

/// One parsed line: a key and the handler tokens its value contributed.
pub struct RawEntry {
    pub key: String,
    pub tokens: Vec<String>,
}

impl RawEntry {
    /// The entry as a pair of its key's and its tokens' character sequences.
    pub open spec fn view_pair(self) -> (Seq<char>, Seq<Seq<char>>) {
        (self.key@, self.tokens.deep_view())
    }
}

/// A sequence of entries as pairs of character sequences.
pub open spec fn entries_view(es: Seq<RawEntry>) -> Seq<(Seq<char>, Seq<Seq<char>>)> {
    Seq::new(es.len(), |i: int| es[i].view_pair())
}

/// Whether a line has the `KEY=VALUE;` shape: it ends in `;` and holds an `=`.
pub open spec fn line_matches(line: Seq<char>) -> bool {
    line.len() > 0 && line[line.len() - 1] == ';' && find_first(line, '=') is Some
}

/// The index of the first `=` of a matching line.
pub open spec fn eq_index(line: Seq<char>) -> int {
    match find_first(line, '=') {
        Some(i) => i,
        None => -1,
    }
}

/// The key of a matching line: what stands before the first `=`, trimmed.
pub open spec fn line_key(line: Seq<char>) -> Seq<char> {
    trim_spec(line.take(eq_index(line)))
}

/// The value segment of a matching line: what stands between the first `=`
/// and the closing `;`.
pub open spec fn line_value(line: Seq<char>) -> Seq<char> {
    line.subrange(eq_index(line) + 1, line.len() - 1)
}

/// Trims each piece and drops the ones that trim to nothing.
pub open spec fn clean_tokens(parts: Seq<Seq<char>>) -> Seq<Seq<char>>
    decreases parts.len(),
{
    if parts.len() == 0 {
        Seq::<Seq<char>>::empty()
    } else {
        let rest = clean_tokens(parts.drop_last());
        let t = trim_spec(parts.last());
        if t.len() > 0 {
            rest.push(t)
        } else {
            rest
        }
    }
}

/// The handler tokens of a matching line.
pub open spec fn line_tokens(line: Seq<char>) -> Seq<Seq<char>> {
    clean_tokens(split_spec(line_value(line), ';'))
}

/// The entries of a sequence of lines, in order; non-matching lines are skipped.
pub open spec fn entries_of_lines(ls: Seq<Seq<char>>) -> Seq<(Seq<char>, Seq<Seq<char>>)>
    decreases ls.len(),
{
    if ls.len() == 0 {
        Seq::<(Seq<char>, Seq<Seq<char>>)>::empty()
    } else {
        let rest = entries_of_lines(ls.drop_last());
        if line_matches(ls.last()) {
            rest.push((line_key(ls.last()), line_tokens(ls.last())))
        } else {
            rest
        }
    }
}

/// The entries one source text contributes: its lines' entries, in order.
pub open spec fn parse_text_spec(text: Seq<char>) -> Seq<(Seq<char>, Seq<Seq<char>>)> {
    entries_of_lines(lines_spec(text))
}

/// Every token a cleaned token list holds is non-empty.
pub proof fn lemma_clean_tokens_nonempty(parts: Seq<Seq<char>>)
    ensures
        forall|j: int| 0 <= j < clean_tokens(parts).len() ==> #[trigger] clean_tokens(
            parts,
        )[j].len() > 0,
    decreases parts.len(),
{
    if parts.len() > 0 {
        lemma_clean_tokens_nonempty(parts.drop_last());
        let rest = clean_tokens(parts.drop_last());
        let t = trim_spec(parts.last());
        assert forall|j: int| 0 <= j < clean_tokens(parts).len() implies #[trigger] clean_tokens(
            parts,
        )[j].len() > 0 by {
            if t.len() > 0 {
                assert(clean_tokens(parts) == rest.push(t));
                if j < rest.len() {
                    assert(clean_tokens(parts)[j] == rest[j]);
                }
            } else {
                assert(clean_tokens(parts) == rest);
            }
        }
    }
}

/// Every token any entry of any line holds is non-empty.
pub proof fn lemma_entries_tokens_nonempty(ls: Seq<Seq<char>>)
    ensures
        forall|i: int, j: int|
            0 <= i < entries_of_lines(ls).len() && 0 <= j < entries_of_lines(ls)[i].1.len()
                ==> #[trigger] entries_of_lines(ls)[i].1[j].len() > 0,
    decreases ls.len(),
{
    if ls.len() > 0 {
        lemma_entries_tokens_nonempty(ls.drop_last());
        let rest = entries_of_lines(ls.drop_last());
        assert forall|i: int, j: int|
            0 <= i < entries_of_lines(ls).len() && 0 <= j < entries_of_lines(
                ls,
            )[i].1.len() implies #[trigger] entries_of_lines(ls)[i].1[j].len() > 0 by {
            if line_matches(ls.last()) {
                lemma_clean_tokens_nonempty(split_spec(line_value(ls.last()), ';'));
                let e = (line_key(ls.last()), line_tokens(ls.last()));
                assert(entries_of_lines(ls) == rest.push(e));
                if i < rest.len() {
                    assert(entries_of_lines(ls)[i] == rest[i]);
                } else {
                    assert(entries_of_lines(ls)[i] == e);
                }
            } else {
                assert(entries_of_lines(ls) == rest);
            }
        }
    }
}

/// Parses one line, yielding its entry when it has the `KEY=VALUE;` shape.
pub fn parse_line(line: &str) -> (r: Option<RawEntry>)
    ensures
        match r {
            None => !line_matches(line@),
            Some(e) => line_matches(line@) && e.key@ == line_key(line@) && e.tokens.deep_view()
                == line_tokens(line@),
        },
{
    let len: usize = line.unicode_len();
    if len == 0 {
        return None;
    }
    if line.get_char(len - 1) != ';' {
        return None;
    }
    let eq = find_char(line, '=');
    match eq {
        None => None,
        Some(ei) => {
            proof {
                lemma_find_first(line@, '=');
                assert(line@[ei as int] == '=');
                assert(ei < len - 1) by {
                    assert(line@[len - 1] == ';');
                }
            }
            let key = trim_str(line.substring_char(0, ei));
            proof {
                assert(line@.subrange(0, ei as int) =~= line@.take(eq_index(line@)));
            }
            let value = line.substring_char(ei + 1, len - 1);
            proof {
                assert(value@ =~= line_value(line@));
            }
            let parts = split_str(value, ';');
            let mut tokens: Vec<String> = Vec::new();
            let mut i: usize = 0;
            proof {
                assert(parts.deep_view().take(0) =~= Seq::<Seq<char>>::empty());
                assert(tokens.deep_view() =~= clean_tokens(parts.deep_view().take(0)));
            }
            while i < parts.len()
                invariant
                    i <= parts.len(),
                    parts.deep_view().len() == parts.len(),
                    tokens.deep_view() == clean_tokens(parts.deep_view().take(i as int)),
                decreases parts.len() - i,
            {
                let t = trim_str(parts[i].as_str());
                proof {
                    assert(parts.deep_view().take(i + 1).drop_last() =~= parts.deep_view().take(
                        i as int,
                    ));
                    assert(parts.deep_view().take(i + 1).last() == parts.deep_view()[i as int]);
                }
                if !t.as_str().is_empty() {
                    let ghost pre = tokens.deep_view();
                    let ghost pre_vec = tokens@;
                    let ghost tv = t@;
                    tokens.push(t);
                    proof {
                        assert forall|j: int| 0 <= j < tokens@.len() implies tokens.deep_view()[j]
                            == pre.push(tv)[j] by {
                            if j < pre_vec.len() {
                                assert(tokens@[j] == pre_vec[j]);
                                assert(pre[j] == pre_vec[j].deep_view());
                            }
                        }
                        assert(tokens.deep_view() =~= pre.push(tv));
                    }
                }
                i = i + 1;
            }
            proof {
                assert(parts.deep_view().take(parts.deep_view().len() as int) =~= parts.deep_view());
            }
            Some(RawEntry { key, tokens })
        },
    }
}

/// Parses a whole source text into its entries, line by line.
pub fn parse_text(text: &str) -> (r: Vec<RawEntry>)
    ensures
        entries_view(r@) == parse_text_spec(text@),
{
    let lines = split_lines(text);
    let mut out: Vec<RawEntry> = Vec::new();
    let mut i: usize = 0;
    proof {
        assert(lines.deep_view().take(0) =~= Seq::<Seq<char>>::empty());
        assert(entries_view(out@) =~= entries_of_lines(lines.deep_view().take(0)));
    }
    while i < lines.len()
        invariant
            i <= lines.len(),
            lines.deep_view().len() == lines.len(),
            entries_view(out@) == entries_of_lines(lines.deep_view().take(i as int)),
        decreases lines.len() - i,
    {
        proof {
            assert(lines.deep_view().take(i + 1).drop_last() =~= lines.deep_view().take(i as int));
            assert(lines.deep_view().take(i + 1).last() == lines.deep_view()[i as int]);
            assert(lines[i as int]@ == lines.deep_view()[i as int]);
        }
        let entry = parse_line(lines[i].as_str());
        match entry {
            Some(e) => {
                let ghost pre = entries_view(out@);
                let ghost pre_vec = out@;
                let ghost ep = e.view_pair();
                out.push(e);
                proof {
                    assert forall|j: int| 0 <= j < out@.len() implies entries_view(out@)[j]
                        == pre.push(ep)[j] by {
                        if j < pre_vec.len() {
                            assert(out@[j] == pre_vec[j]);
                            assert(pre[j] == pre_vec[j].view_pair());
                        }
                    }
                    assert(entries_view(out@) =~= pre.push(ep));
                    assert(entries_view(out@) =~= entries_of_lines(lines.deep_view().take(i + 1)));
                }
            },
            None => {
                proof {
                    assert(entries_view(out@) =~= entries_of_lines(lines.deep_view().take(i + 1)));
                }
            },
        }
        i = i + 1;
    }
    proof {
        assert(lines.deep_view().take(lines.deep_view().len() as int) =~= lines.deep_view());
    }
    out
}

} // verus!
