use crate::record::Record;
use crate::value::Value;
use crate::value::ValueView;
use vstd::prelude::*;
use vstd::string::StrSliceExecFns;

verus! {

/// A placeholder name is made of word characters: ASCII letters, digits and
/// the underscore. The restriction to ASCII is deliberate: a name outside
/// it leaves the placeholder as literal text.
pub open spec fn word_char(c: char) -> bool {
    ||| 'a' <= c && c <= 'z'
    ||| 'A' <= c && c <= 'Z'
    ||| '0' <= c && c <= '9'
    ||| c == '_'
}

/// `s[i..j]` is a placeholder: an opening brace, at least one word
/// character, a closing brace, and nothing else.
pub open spec fn is_placeholder_at(s: Seq<char>, i: int, j: int) -> bool {
    &&& 0 <= i
    &&& i + 3 <= j
    &&& j <= s.len()
    &&& s[i] == '{'
    &&& s[j - 1] == '}'
    &&& forall|k: int| i < k < j - 1 ==> word_char(#[trigger] s[k])
}

pub open spec fn has_placeholder_at(s: Seq<char>, i: int) -> bool {
    exists|j: int| is_placeholder_at(s, i, j)
}

pub open spec fn placeholder_end(s: Seq<char>, i: int) -> int {
    choose|j: int| is_placeholder_at(s, i, j)
}

/// A placeholder starting at a given position ends at exactly one place:
/// the first closing brace after the word characters.
pub proof fn lemma_placeholder_unique(s: Seq<char>, i: int, j1: int, j2: int)
    requires
        is_placeholder_at(s, i, j1),
        is_placeholder_at(s, i, j2),
    ensures
        j1 == j2,
{
    if j1 < j2 {
        assert(word_char(s[j1 - 1]));
        assert(!word_char('}'));
    }
    if j2 < j1 {
        assert(word_char(s[j2 - 1]));
        assert(!word_char('}'));
    }
}

/// The placeholder ranges of `s` at or after `pos`, leftmost first; ranges
/// do not overlap, and a failed start is retried one character later.
pub open spec fn scan_from(s: Seq<char>, pos: int) -> Seq<(int, int)>
    decreases s.len() - pos,
    when 0 <= pos
{
    if pos >= s.len() {
        Seq::empty()
    } else if has_placeholder_at(s, pos) {
        let j = placeholder_end(s, pos);
        seq![(pos, j)] + scan_from(s, j)
    } else {
        scan_from(s, pos + 1)
    }
}

/// Scanned ranges are in bounds, at least three characters wide, ordered,
/// and non-overlapping.
pub proof fn lemma_scan_bounds(s: Seq<char>, pos: int)
    requires
        0 <= pos,
    ensures
        forall|k: int|
            0 <= k < scan_from(s, pos).len() ==> pos <= (#[trigger] scan_from(s, pos)[k]).0
                && scan_from(s, pos)[k].0 + 3 <= scan_from(s, pos)[k].1 && scan_from(s, pos)[k].1
                <= s.len(),
        forall|k1: int, k2: int|
            0 <= k1 < k2 < scan_from(s, pos).len() ==> (#[trigger] scan_from(s, pos)[k1]).1 <= (
            #[trigger] scan_from(s, pos)[k2]).0,
    decreases s.len() - pos,
{
    if pos >= s.len() {
    } else if has_placeholder_at(s, pos) {
        let j = placeholder_end(s, pos);
        assert(is_placeholder_at(s, pos, j));
        lemma_scan_bounds(s, j);
        assert(scan_from(s, pos) == seq![(pos, j)] + scan_from(s, j));
        assert forall|k: int| 0 <= k < scan_from(s, pos).len() implies pos <= (
        #[trigger] scan_from(s, pos)[k]).0 && scan_from(s, pos)[k].0 + 3 <= scan_from(s, pos)[k].1
            && scan_from(s, pos)[k].1 <= s.len() by {
            if k > 0 {
                assert(scan_from(s, pos)[k] == scan_from(s, j)[k - 1]);
            }
        }
        assert forall|k1: int, k2: int|
            0 <= k1 < k2 < scan_from(s, pos).len() implies (#[trigger] scan_from(s, pos)[k1]).1
            <= (#[trigger] scan_from(s, pos)[k2]).0 by {
            assert(scan_from(s, pos)[k2] == scan_from(s, j)[k2 - 1]);
            if k1 > 0 {
                assert(scan_from(s, pos)[k1] == scan_from(s, j)[k1 - 1]);
            }
        }
    } else {
        lemma_scan_bounds(s, pos + 1);
        assert(scan_from(s, pos) == scan_from(s, pos + 1));
        assert forall|k: int| 0 <= k < scan_from(s, pos).len() implies pos <= (
        #[trigger] scan_from(s, pos)[k]).0 && scan_from(s, pos)[k].0 + 3 <= scan_from(s, pos)[k].1
            && scan_from(s, pos)[k].1 <= s.len() by {
            assert(scan_from(s, pos)[k] == scan_from(s, pos + 1)[k]);
        }
        assert forall|k1: int, k2: int|
            0 <= k1 < k2 < scan_from(s, pos).len() implies (#[trigger] scan_from(s, pos)[k1]).1
            <= (#[trigger] scan_from(s, pos)[k2]).0 by {
            assert(scan_from(s, pos)[k1] == scan_from(s, pos + 1)[k1]);
            assert(scan_from(s, pos)[k2] == scan_from(s, pos + 1)[k2]);
        }
    }
}

/// A string without placeholders scans to the empty range list.
pub proof fn lemma_scan_none(s: Seq<char>, pos: int)
    requires
        0 <= pos,
        forall|i: int, j: int| !is_placeholder_at(s, i, j),
    ensures
        scan_from(s, pos) == Seq::<(int, int)>::empty(),
    decreases s.len() - pos,
{
    if pos < s.len() {
        lemma_scan_none(s, pos + 1);
    }
}

/// What a placeholder renders as: the string value of the named field when
/// the record has it as a string, the placeholder text itself otherwise.
pub open spec fn subst(s: Seq<char>, st: int, en: int, r: Map<Seq<char>, ValueView>) -> Seq<
    char,
> {
    let name = s.subrange(st + 1, en - 1);
    if r.contains_key(name) {
        match r[name] {
            ValueView::Str(t) => t,
            _ => s.subrange(st, en),
        }
    } else {
        s.subrange(st, en)
    }
}

/// The rendering of `s` from position `from` on, over the given ranges:
/// literal spans unchanged, placeholders substituted.
pub open spec fn format_from(
    s: Seq<char>,
    locs: Seq<(int, int)>,
    r: Map<Seq<char>, ValueView>,
    from: int,
) -> Seq<char>
    decreases locs.len(),
{
    if locs.len() == 0 {
        s.subrange(from, s.len() as int)
    } else {
        s.subrange(from, locs.first().0) + subst(s, locs.first().0, locs.first().1, r)
            + format_from(s, locs.drop_first(), r, locs.first().1)
    }
}

/// The full rendering of a template against a record.
pub open spec fn formatted(t: Seq<char>, r: Map<Seq<char>, ValueView>) -> Seq<char> {
    format_from(t, scan_from(t, 0), r, 0)
}

/// A template with no placeholder renders as itself, whatever the record.
pub proof fn lemma_format_literal(t: Seq<char>, r: Map<Seq<char>, ValueView>)
    requires
        forall|i: int, j: int| !is_placeholder_at(t, i, j),
    ensures
        formatted(t, r) == t,
{
    lemma_scan_none(t, 0);
    assert(formatted(t, r) =~= t);
}

fn is_word(c: char) -> (r: bool)
    ensures
        r == word_char(c),
{
    ('a' <= c && c <= 'z') || ('A' <= c && c <= 'Z') || ('0' <= c && c <= '9') || c == '_'
}

pub open spec fn locs_view(v: Seq<(usize, usize)>) -> Seq<(int, int)> {
    Seq::new(v.len(), |i: int| (v[i].0 as int, v[i].1 as int))
}

/// A compiled `{name}`-placeholder string: the original text plus the
/// ordered list of placeholder ranges, found once at construction.
pub struct Template {
    template: String,
    var_locations: Vec<(usize, usize)>,
}

impl Template {
    /// The ranges match what scanning the text finds.
    pub closed spec fn wf(self) -> bool {
        locs_view(self.var_locations@) == scan_from(self.template@, 0)
    }

    /// Compiles a template: records every placeholder range.
    pub fn new(template: String) -> (r: Template)
        ensures
            r@ == template@,
            r.wf(),
    {
        let ghost s = template@;
        let n: usize = template.as_str().unicode_len();
        let mut locs: Vec<(usize, usize)> = Vec::new();
        let mut pos: usize = 0;
        while pos < n
            invariant
                n == s.len(),
                template@ == s,
                pos <= n,
                scan_from(s, 0) == locs_view(locs@) + scan_from(s, pos as int),
            decreases n - pos,
        {
            let c = template.as_str().get_char(pos);
            if c == '{' {
                let mut j: usize = pos + 1;
                while j < n && is_word(template.as_str().get_char(j))
                    invariant
                        n == s.len(),
                        template@ == s,
                        pos < j <= n,
                        forall|k: int| pos < k < j ==> word_char(#[trigger] s[k]),
                    decreases n - j,
                {
                    j = j + 1;
                }
                if j < n && j > pos + 1 && template.as_str().get_char(j) == '}' {
                    proof {
                        assert(is_placeholder_at(s, pos as int, j + 1));
                        lemma_placeholder_unique(
                            s,
                            pos as int,
                            placeholder_end(s, pos as int),
                            j + 1,
                        );
                        assert(scan_from(s, pos as int) == seq![(pos as int, j + 1)] + scan_from(
                            s,
                            j + 1,
                        ));
                    }
                    let ghost prev = locs@;
                    locs.push((pos, j + 1));
                    proof {
                        assert(locs_view(locs@) =~= locs_view(prev).push((pos as int, j + 1)));
                        assert(locs_view(prev).push((pos as int, j + 1)) + scan_from(s, j + 1)
                            =~= locs_view(prev) + (seq![(pos as int, j + 1)] + scan_from(
                            s,
                            j + 1,
                        )));
                    }
                    pos = j + 1;
                } else {
                    proof {
                        if has_placeholder_at(s, pos as int) {
                            let j2 = placeholder_end(s, pos as int);
                            assert(is_placeholder_at(s, pos as int, j2));
                            if j2 - 1 < j {
                                assert(word_char(s[j2 - 1]));
                                assert(!word_char('}'));
                            } else if j2 - 1 == j {
                                assert(j < n);
                            } else {
                                assert(word_char(s[j as int]));
                            }
                        }
                        assert(!has_placeholder_at(s, pos as int));
                    }
                    pos = pos + 1;
                }
            } else {
                proof {
                    if has_placeholder_at(s, pos as int) {
                        let j2 = placeholder_end(s, pos as int);
                        assert(is_placeholder_at(s, pos as int, j2));
                    }
                    assert(!has_placeholder_at(s, pos as int));
                }
                pos = pos + 1;
            }
        }
        proof {
            assert(scan_from(s, 0) =~= locs_view(locs@));
        }
        Template { template, var_locations: locs }
    }

    /// Renders the template against a record: literal spans are emitted
    /// unchanged; a placeholder becomes the named field's text when that
    /// field exists and is a string, and stays as written otherwise.
    pub fn format(&self, record: &Record) -> (r: String)
        requires
            self.wf(),
            record.wf(),
        ensures
            r@ == formatted(self@, record@),
    {
        let ghost s = self.template@;
        let ghost locs = scan_from(s, 0);
        proof {
            lemma_scan_bounds(s, 0);
        }
        let n: usize = self.template.as_str().unicode_len();
        let mut out: String = String::new();
        let mut last: usize = 0;
        let mut k: usize = 0;
        proof {
            assert(locs.skip(0) =~= locs);
            assert(out@ + format_from(s, locs, record@, 0) =~= format_from(s, locs, record@, 0));
        }
        while k < self.var_locations.len()
            invariant
                n == s.len(),
                self.template@ == s,
                self.wf(),
                record.wf(),
                locs == scan_from(s, 0),
                locs == locs_view(self.var_locations@),
                k <= self.var_locations@.len(),
                k < self.var_locations@.len() ==> last <= locs[k as int].0,
                k == self.var_locations@.len() ==> last <= n,
                forall|k2: int|
                    0 <= k2 < locs.len() ==> 0 <= (#[trigger] locs[k2]).0 && locs[k2].0 + 3
                        <= locs[k2].1 <= s.len(),
                forall|k1: int, k2: int|
                    0 <= k1 < k2 < locs.len() ==> (#[trigger] locs[k1]).1 <= (
                    #[trigger] locs[k2]).0,
                formatted(s, record@) == out@ + format_from(
                    s,
                    locs.skip(k as int),
                    record@,
                    last as int,
                ),
            decreases self.var_locations@.len() - k,
        {
            let st: usize = self.var_locations[k].0;
            let en: usize = self.var_locations[k].1;
            proof {
                assert(locs[k as int] == (st as int, en as int));
                assert(locs.skip(k as int).first() == locs[k as int]);
                assert(locs.skip(k as int).drop_first() =~= locs.skip(k as int + 1));
                if k as int + 1 < locs.len() {
                    assert(locs[k as int].1 <= locs[k as int + 1].0);
                }
            }
            out.append(self.template.as_str().substring_char(last, st));
            let name: &str = self.template.as_str().substring_char(st + 1, en - 1);
            proof {
                assert(name@ == s.subrange(st + 1, en - 1));
            }
            let mut replaced: bool = false;
            match record.get(name) {
                Some(v) => {
                    match v {
                        Value::Str(text) => {
                            out.append(text.as_str());
                            replaced = true;
                        },
                        _ => {},
                    }
                },
                None => {},
            }
            if !replaced {
                out.append(self.template.as_str().substring_char(st, en));
            }
            proof {
                assert(out@ + format_from(s, locs.skip(k as int + 1), record@, en as int)
                    =~= formatted(s, record@));
            }
            last = en;
            k = k + 1;
        }
        proof {
            assert(locs.skip(k as int) =~= Seq::<(int, int)>::empty());
        }
        out.append(self.template.as_str().substring_char(last, n));
        proof {
            assert(out@ =~= formatted(s, record@));
        }
        out
    }
}

impl View for Template {
    type V = Seq<char>;

    closed spec fn view(&self) -> Seq<char> {
        self.template@
    }
}

} // verus!
