//! Parsing of raw header specification strings.
//!
//! A header specification uses the grammar `name(":" value)*`: a header name
//! followed by zero or more colon-delimited value segments. Splitting is on
//! the literal colon with no escaping, so every delimiter produces a boundary
//! regardless of adjacent content; empty segments are legal values. A string
//! with no colon at all is a single segment and becomes the name of a header
//! with no values, so parsing is total over all strings.

use vstd::prelude::*;

verus! {

/// One HTTP header to attach to every generated request: a name (taken
/// verbatim, not validated against HTTP token rules) and an ordered list of
/// values. `values` may be empty; duplicates are allowed.
#[derive(Debug, Clone, PartialEq, Eq)]
pub struct Header {
    pub name: String,
    pub values: Vec<String>,
}

/// The mathematical model of a `Header`: the name and the values as
/// sequences of characters.
#[verifier::ext_equal]
pub struct HeaderView {
    pub name: Seq<char>,
    pub values: Seq<Seq<char>>,
}

impl View for Header {
    type V = HeaderView;

    open spec fn view(&self) -> HeaderView {
        HeaderView { name: self.name@, values: self.values.deep_view() }
    }
}

impl DeepView for Header {
    type V = HeaderView;

    open spec fn deep_view(&self) -> HeaderView {
        self.view()
    }
}

/// The colon-delimited segments of a string: splitting on every `:` with no
/// escaping. Every string has at least one segment; the empty string has
/// exactly one, itself empty.
pub open spec fn colon_split(s: Seq<char>) -> Seq<Seq<char>>
    decreases s.len(),
{
    if s.len() == 0 {
        seq![Seq::<char>::empty()]
    } else if s.last() == ':' {
        colon_split(s.drop_last()).push(Seq::<char>::empty())
    } else {
        let rest = colon_split(s.drop_last());
        rest.update(rest.len() - 1, rest.last().push(s.last()))
    }
}

/// How many colons a string contains.
pub open spec fn colon_count(s: Seq<char>) -> nat
    decreases s.len(),
{
    if s.len() == 0 {
        0
    } else if s.last() == ':' {
        colon_count(s.drop_last()) + 1
    } else {
        colon_count(s.drop_last())
    }
}

/// The header denoted by a raw specification string: the first segment (even
/// if empty) is the name, every subsequent segment in left-to-right order is
/// a value.
pub open spec fn header_of(s: Seq<char>) -> HeaderView {
    HeaderView { name: colon_split(s)[0], values: colon_split(s).skip(1) }
}

/// A string splits into one segment more than it has colons; in particular
/// the split of any string is non-empty.
pub proof fn lemma_colon_split_len(s: Seq<char>)
    ensures
        colon_split(s).len() == colon_count(s) + 1,
    decreases s.len(),
{
    if s.len() != 0 {
        lemma_colon_split_len(s.drop_last());
    }
}

impl Header {
    /// Parses one raw header specification string. Total: every string,
    /// including the empty string, yields a header.
    pub fn parse_header(s: &str) -> (h: Header)
        ensures
            h@ == header_of(s@),
    {
        let mut segs = split_colon(s);
        proof {
            lemma_colon_split_len(s@);
        }
        let name = segs.remove(0);
        let h = Header { name, values: segs };
        proof {
            assert(h@.values =~= header_of(s@).values);
            assert(h@ =~= header_of(s@));
        }
        h
    }
}

/// Splits a string at every colon, keeping empty segments; the result always
/// has at least one element.
fn split_colon(s: &str) -> (r: Vec<String>)
    ensures
        r.deep_view() == colon_split(s@),
{
    let n = s.unicode_len();
    let mut r: Vec<String> = Vec::new();
    let mut start: usize = 0;
    let mut i: usize = 0;
    proof {
        assert(s@.take(0) =~= Seq::<char>::empty());
        assert(r.deep_view().push(s@.subrange(0, 0)) =~= colon_split(s@.take(0)));
    }
    while i < n
        invariant
            n == s@.len(),
            start <= i <= n,
            colon_split(s@.take(i as int)) == r.deep_view().push(
                s@.subrange(start as int, i as int),
            ),
        decreases n - i,
    {
        let ghost prefix = s@.take(i as int);
        let ghost done = r.deep_view();
        let ghost seg0 = s@.subrange(start as int, i as int);
        let c = s.get_char(i);
        if c == ':' {
            let seg = s.substring_char(start, i).to_owned();
            r.push(seg);
            proof {
                assert(r.deep_view() =~= done.push(seg0));
            }
            start = i + 1;
            i = i + 1;
            proof {
                assert(s@.take(i as int).drop_last() =~= prefix);
                assert(s@.take(i as int).last() == s@[i - 1]);
                assert(s@.subrange(start as int, i as int) =~= Seq::<char>::empty());
                assert(colon_split(s@.take(i as int)) == done.push(seg0).push(
                    s@.subrange(start as int, i as int),
                ));
            }
        } else {
            i = i + 1;
            proof {
                assert(s@.take(i as int).drop_last() =~= prefix);
                assert(s@.take(i as int).last() == s@[i - 1]);
                let rest = colon_split(prefix);
                assert(rest.last() == seg0);
                assert(rest.update(rest.len() - 1, seg0.push(s@[i - 1])) =~= done.push(
                    seg0.push(s@[i - 1]),
                ));
                assert(seg0.push(s@[i - 1]) =~= s@.subrange(start as int, i as int));
            }
        }
    }
    let seg = s.substring_char(start, n).to_owned();
    r.push(seg);
    proof {
        assert(s@.take(n as int) =~= s@);
        assert(r.deep_view() =~= colon_split(s@));
    }
    r
}

/// A string with no colon is a single segment: the degenerate split.
pub proof fn lemma_colon_split_no_colon(s: Seq<char>)
    requires
        forall|i: int| 0 <= i < s.len() ==> s[i] != ':',
    ensures
        colon_split(s) == seq![s],
    decreases s.len(),
{
    if s.len() == 0 {
        assert(s =~= Seq::<char>::empty());
        assert(colon_split(s) =~= seq![s]);
    } else {
        assert(s[s.len() - 1] != ':');
        lemma_colon_split_no_colon(s.drop_last());
        assert(s.drop_last().push(s.last()) =~= s);
        assert(colon_split(s) =~= seq![s]);
    }
}

/// A string with no colon parses to itself as the name, with no values; in
/// particular the empty string parses to an empty name and no values.
pub proof fn lemma_parse_no_colon(s: Seq<char>)
    requires
        forall|i: int| 0 <= i < s.len() ==> s[i] != ':',
    ensures
        header_of(s) == (HeaderView { name: s, values: Seq::<Seq<char>>::empty() }),
{
    lemma_colon_split_no_colon(s);
    assert(header_of(s).values =~= Seq::<Seq<char>>::empty());
    assert(header_of(s) =~= (HeaderView { name: s, values: Seq::<Seq<char>>::empty() }));
}

/// A specification string parses to exactly as many values as it has colons,
/// however the segments fall; empty segments count like any other.
pub proof fn lemma_parse_value_count(s: Seq<char>)
    ensures
        header_of(s).values.len() == colon_count(s),
{
    lemma_colon_split_len(s);
}

/// The string denoted by a sequence of segments: the segments joined with a
/// single colon between each adjacent pair.
pub open spec fn join_colon(segs: Seq<Seq<char>>) -> Seq<char>
    decreases segs.len(),
{
    if segs.len() == 0 {
        Seq::<char>::empty()
    } else if segs.len() == 1 {
        segs[0]
    } else {
        join_colon(segs.drop_last()) + seq![':'] + segs.last()
    }
}

/// The specification string a header re-serializes to: its name followed by
/// each value, colon-delimited.
pub open spec fn header_string(h: HeaderView) -> Seq<char> {
    join_colon(seq![h.name] + h.values)
}

/// Splitting undoes joining, as long as the tail segment is colon-free:
/// appending `":" ++ b` to any string adds exactly the segment `b`.
proof fn lemma_colon_split_append(a: Seq<char>, b: Seq<char>)
    requires
        forall|i: int| 0 <= i < b.len() ==> b[i] != ':',
    ensures
        colon_split(a + seq![':'] + b) == colon_split(a).push(b),
    decreases b.len(),
{
    if b.len() == 0 {
        assert(a + seq![':'] + b =~= a.push(':'));
        assert(a.push(':').drop_last() =~= a);
        assert(b =~= Seq::<char>::empty());
        assert(colon_split(a.push(':')) =~= colon_split(a).push(b));
    } else {
        let s = a + seq![':'] + b;
        assert(s.last() == b.last());
        assert(s.drop_last() =~= a + seq![':'] + b.drop_last());
        lemma_colon_split_append(a, b.drop_last());
        let rest = colon_split(s.drop_last());
        lemma_colon_split_len(s.drop_last());
        assert(rest.last() == b.drop_last());
        assert(b.drop_last().push(b.last()) =~= b);
        assert(rest.update(rest.len() - 1, b) =~= colon_split(a).push(b));
    }
}

/// Splitting the colon-joined form of colon-free segments restores the
/// segments exactly.
proof fn lemma_colon_split_join(segs: Seq<Seq<char>>)
    requires
        segs.len() >= 1,
        forall|k: int, i: int| 0 <= k < segs.len() && 0 <= i < segs[k].len() ==> segs[k][i] != ':',
    ensures
        colon_split(join_colon(segs)) == segs,
    decreases segs.len(),
{
    if segs.len() == 1 {
        lemma_colon_split_no_colon(segs[0]);
        assert(colon_split(join_colon(segs)) =~= segs);
    } else {
        lemma_colon_split_join(segs.drop_last());
        lemma_colon_split_append(join_colon(segs.drop_last()), segs.last());
        assert(colon_split(join_colon(segs)) =~= segs);
    }
}

/// No segment of a split contains a colon: every colon becomes a boundary.
pub proof fn lemma_colon_split_colon_free(s: Seq<char>)
    ensures
        forall|k: int, i: int|
            0 <= k < colon_split(s).len() && 0 <= i < colon_split(s)[k].len()
                ==> colon_split(s)[k][i] != ':',
    decreases s.len(),
{
    if s.len() != 0 {
        lemma_colon_split_colon_free(s.drop_last());
        lemma_colon_split_len(s.drop_last());
    }
}

/// Joining undoes splitting, for every string: the segments of a string,
/// re-joined with colons, are the string itself. Together with the segments
/// being colon-free and ordered this pins the split down completely.
pub proof fn lemma_join_colon_split(s: Seq<char>)
    ensures
        join_colon(colon_split(s)) == s,
    decreases s.len(),
{
    if s.len() == 0 {
        assert(join_colon(colon_split(s)) =~= s);
    } else {
        lemma_join_colon_split(s.drop_last());
        lemma_colon_split_len(s.drop_last());
        let rest = colon_split(s.drop_last());
        if s.last() == ':' {
            assert(rest.push(Seq::<char>::empty()).drop_last() =~= rest);
            assert(join_colon(colon_split(s)) =~= s.drop_last() + seq![':']
                + Seq::<char>::empty());
            assert(s.drop_last() + seq![':'] + Seq::<char>::empty() =~= s);
        } else {
            let updated = rest.update(rest.len() - 1, rest.last().push(s.last()));
            if rest.len() == 1 {
                assert(join_colon(rest) == rest[0]);
                assert(join_colon(updated) == rest[0].push(s.last()));
                assert(rest[0].push(s.last()) =~= s);
            } else {
                assert(updated.drop_last() =~= rest.drop_last());
                assert(updated.last() == rest.last().push(s.last()));
                assert(join_colon(updated) == join_colon(rest.drop_last()) + seq![':']
                    + rest.last().push(s.last()));
                assert(join_colon(rest.drop_last()) + seq![':'] + rest.last().push(s.last())
                    =~= (join_colon(rest.drop_last()) + seq![':'] + rest.last()).push(
                    s.last(),
                ));
                assert(s.drop_last().push(s.last()) =~= s);
            }
        }
    }
}

/// Round trip: re-serializing a header back into its `name:v1:v2` form and
/// re-parsing restores the header exactly, as long as neither the name nor
/// any value contains a colon (a colon inside a value would move characters
/// into further values on the way back).
pub proof fn lemma_header_round_trip(h: HeaderView)
    requires
        forall|i: int| 0 <= i < h.name.len() ==> h.name[i] != ':',
        forall|k: int, i: int|
            0 <= k < h.values.len() && 0 <= i < h.values[k].len() ==> h.values[k][i] != ':',
    ensures
        header_of(header_string(h)) == h,
{
    let segs = seq![h.name] + h.values;
    assert(forall|k: int, i: int|
        0 <= k < segs.len() && 0 <= i < segs[k].len() ==> segs[k][i] != ':');
    lemma_colon_split_join(segs);
    assert(header_of(header_string(h)).values =~= h.values);
    assert(header_of(header_string(h)) =~= h);
}

impl Header {
    /// Re-serializes the header into the raw specification form it parses
    /// from: the name followed by each value, colon-delimited.
    pub fn to_raw_string(&self) -> (r: String)
        ensures
            r@ == header_string(self@),
    {
        let ghost segs = seq![self@.name] + self@.values;
        let mut r = self.name.clone();
        proof {
            assert(segs.take(1) =~= seq![self@.name]);
            assert(r@ == join_colon(segs.take(1)));
        }
        let mut i: usize = 0;
        while i < self.values.len()
            invariant
                self@.values.len() == self.values.len(),
                i <= self.values.len(),
                segs == seq![self@.name] + self@.values,
                r@ == join_colon(segs.take(i + 1)),
            decreases self.values.len() - i,
        {
            let ghost before = r@;
            r.append(":");
            r.append(self.values[i].as_str());
            i = i + 1;
            proof {
                reveal_strlit(":");
                assert(":"@ =~= seq![':']);
                assert(segs.take(i + 1).drop_last() =~= segs.take(i as int));
                assert(segs.take(i + 1).last() == self@.values[i - 1]);
                assert(segs.take(i + 1).len() >= 2);
                assert(r@ =~= join_colon(segs.take(i as int)) + seq![':'] + self@.values[
                    i - 1
                ]);
            }
        }
        proof {
            assert(segs.take(self.values.len() + 1) =~= segs);
        }
        r
    }
}

} // verus!
