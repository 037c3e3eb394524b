//! Byte-level model of newline-delimited lines.
//!
//! An input is a finite byte sequence.  Its lines are the segments ending in a
//! line feed, each kept together with its terminator; a final segment without
//! a terminator is a line of its own.  `trimmed` strips trailing terminator
//! bytes, which is how two lines are compared for run collapsing.

use vstd::prelude::*;

verus! {

/// ASCII line feed.
pub const LINE_FEED: u8 = 10;

/// ASCII carriage return.
pub const CARRIAGE_RETURN: u8 = 13;

/// Index of the first line feed in `s`, or `s.len()` when there is none.
pub open spec fn first_break(s: Seq<u8>) -> nat
    decreases s.len(),
{
    if s.len() == 0 {
        0
    } else if s[0] == LINE_FEED {
        0
    } else {
        1 + first_break(s.drop_first())
    }
}

pub proof fn lemma_first_break(s: Seq<u8>)
    ensures
        first_break(s) <= s.len(),
        first_break(s) < s.len() ==> s[first_break(s) as int] == LINE_FEED,
        forall|j: int| 0 <= j < first_break(s) ==> s[j] != LINE_FEED,
    decreases s.len(),
{
    if s.len() > 0 && s[0] != LINE_FEED {
        lemma_first_break(s.drop_first());
        assert forall|j: int| 0 <= j < first_break(s) implies s[j] != LINE_FEED by {
            if j > 0 {
                assert(s.drop_first()[j - 1] == s[j]);
            }
        }
    }
}

/// `first_break` is the unique position bounding a line-feed-free prefix.
pub proof fn lemma_first_break_is(s: Seq<u8>, k: int)
    requires
        0 <= k <= s.len(),
        forall|j: int| 0 <= j < k ==> s[j] != LINE_FEED,
        k < s.len() ==> s[k] == LINE_FEED,
    ensures
        first_break(s) == k,
    decreases s.len(),
{
    if s.len() > 0 && s[0] != LINE_FEED {
        assert(k >= 1);
        lemma_first_break_is(s.drop_first(), k - 1);
    }
}

/// The newline-delimited lines of `s`, each including its terminator; a final
/// segment without a terminator is a line of its own.
pub open spec fn lines_of(s: Seq<u8>) -> Seq<Seq<u8>>
    decreases s.len(),
{
    if s.len() == 0 {
        seq![]
    } else {
        let k = first_break(s) as int;
        if k < s.len() {
            seq![s.take(k + 1)] + lines_of(s.skip(k + 1))
        } else {
            seq![s]
        }
    }
}

/// A line is a non-empty byte sequence with no interior line feed.
pub open spec fn is_line(l: Seq<u8>) -> bool {
    l.len() > 0 && forall|j: int| 0 <= j < l.len() - 1 ==> l[j] != LINE_FEED
}

/// A line that carries its line-feed terminator.
pub open spec fn terminated(l: Seq<u8>) -> bool {
    l.len() > 0 && l[l.len() - 1] == LINE_FEED
}

/// Every element of `lines_of` is a line, and all but the last are terminated.
pub proof fn lemma_lines_of_wf(s: Seq<u8>)
    ensures
        forall|i: int| 0 <= i < lines_of(s).len() ==> is_line(#[trigger] lines_of(s)[i]),
        forall|i: int| 0 <= i < lines_of(s).len() - 1 ==> terminated(#[trigger] lines_of(s)[i]),
    decreases s.len(),
{
    if s.len() > 0 {
        let k = first_break(s) as int;
        lemma_first_break(s);
        if k < s.len() {
            lemma_lines_of_wf(s.skip(k + 1));
            assert(is_line(s.take(k + 1)));
            assert(terminated(s.take(k + 1)));
            assert forall|i: int| 0 <= i < lines_of(s).len() implies is_line(
                #[trigger] lines_of(s)[i],
            ) by {
                if i > 0 {
                    assert(lines_of(s)[i] == lines_of(s.skip(k + 1))[i - 1]);
                }
            }
            assert forall|i: int| 0 <= i < lines_of(s).len() - 1 implies terminated(
                #[trigger] lines_of(s)[i],
            ) by {
                if i > 0 {
                    assert(lines_of(s)[i] == lines_of(s.skip(k + 1))[i - 1]);
                }
            }
        } else {
            assert(is_line(s));
        }
    }
}

/// Splitting starts over after a full leading line.
pub proof fn lemma_lines_of_prepend_line(l: Seq<u8>, rest: Seq<u8>)
    requires
        is_line(l),
        terminated(l) || rest.len() == 0,
    ensures
        lines_of(l + rest) == seq![l] + lines_of(rest),
{
    let s = l + rest;
    if terminated(l) {
        lemma_first_break_is(s, l.len() - 1);
        assert(s.take(l.len() as int) =~= l);
        assert(s.skip(l.len() as int) =~= rest);
        assert(lines_of(s) == seq![l] + lines_of(rest));
    } else {
        assert(s =~= l);
        lemma_first_break_is(l, l.len() as int);
        assert(lines_of(rest) =~= Seq::<Seq<u8>>::empty());
        assert(seq![l] + lines_of(rest) =~= seq![l]);
    }
}

/// The concatenation of a sequence of byte segments, in order.
pub open spec fn concat_all(ps: Seq<Seq<u8>>) -> Seq<u8>
    decreases ps.len(),
{
    if ps.len() == 0 {
        seq![]
    } else {
        ps.first() + concat_all(ps.drop_first())
    }
}

pub proof fn lemma_concat_all_snoc(ps: Seq<Seq<u8>>, p: Seq<u8>)
    ensures
        concat_all(ps.push(p)) == concat_all(ps) + p,
    decreases ps.len(),
{
    if ps.len() == 0 {
        assert(ps.push(p).drop_first() =~= Seq::<Seq<u8>>::empty());
        assert(concat_all(Seq::<Seq<u8>>::empty()) == Seq::<u8>::empty());
        assert(ps.push(p).first() == p);
        assert(concat_all(ps.push(p)) =~= p);
        assert(concat_all(ps) + p =~= p);
    } else {
        assert(ps.push(p).drop_first() =~= ps.drop_first().push(p));
        lemma_concat_all_snoc(ps.drop_first(), p);
        assert(ps.push(p).first() == ps.first());
        assert(concat_all(ps.push(p)) == ps.first() + (concat_all(ps.drop_first()) + p));
        assert(ps.first() + (concat_all(ps.drop_first()) + p) =~= (ps.first() + concat_all(
            ps.drop_first(),
        )) + p);
    }
}

/// Splitting the concatenation of well-formed lines gives those lines back.
pub proof fn lemma_lines_of_concat(ps: Seq<Seq<u8>>)
    requires
        forall|i: int| 0 <= i < ps.len() ==> is_line(#[trigger] ps[i]),
        forall|i: int| 0 <= i < ps.len() - 1 ==> terminated(#[trigger] ps[i]),
    ensures
        lines_of(concat_all(ps)) == ps,
    decreases ps.len(),
{
    if ps.len() == 0 {
        assert(concat_all(ps) =~= Seq::<u8>::empty());
        assert(lines_of(concat_all(ps)) =~= ps);
    } else {
        let rest = ps.drop_first();
        assert forall|i: int| 0 <= i < rest.len() - 1 implies terminated(#[trigger] rest[i]) by {
            assert(rest[i] == ps[i + 1]);
        }
        lemma_lines_of_concat(rest);
        if ps.len() == 1 {
            assert(concat_all(rest) =~= Seq::<u8>::empty());
            lemma_lines_of_prepend_line(ps.first(), concat_all(rest));
        } else {
            assert(terminated(ps[0]));
            lemma_lines_of_prepend_line(ps.first(), concat_all(rest));
        }
        assert(seq![ps.first()] + rest =~= ps);
    }
}

/// True of the bytes that end a line: line feed and carriage return.
pub open spec fn is_terminator(b: u8) -> bool {
    b == LINE_FEED || b == CARRIAGE_RETURN
}

/// `l` without its trailing terminator bytes.
pub open spec fn trimmed(l: Seq<u8>) -> Seq<u8>
    decreases l.len(),
{
    if l.len() > 0 && is_terminator(l[l.len() - 1]) {
        trimmed(l.drop_last())
    } else {
        l
    }
}

/// Splits `input` into its newline-delimited lines, terminators kept.
pub fn split_lines(input: &[u8]) -> (lines: Vec<Vec<u8>>)
    ensures
        lines.deep_view() == lines_of(input@),
{
    let n = input.len();
    let mut lines: Vec<Vec<u8>> = Vec::new();
    let mut start: usize = 0;
    proof {
        assert(lines.deep_view() =~~= Seq::<Seq<u8>>::empty());
        assert(input@.skip(0) =~= input@);
        assert(lines.deep_view() + lines_of(input@.skip(0)) =~~= lines_of(input@));
    }
    while start < n
        invariant
            start <= n,
            lines.deep_view() + lines_of(input@.skip(start as int)) == lines_of(input@),
        decreases n - start,
    {
        let ghost pre = lines.deep_view();
        let ghost tail = input@.skip(start as int);
        let mut j = start;
        while j < n && *vstd::slice::slice_index_get(input, j) != LINE_FEED
            invariant
                start <= j <= n,
                forall|t: int| start <= t < j ==> input@[t] != LINE_FEED,
            decreases n - j,
        {
            j = j + 1;
        }
        let end = if j < n {
            j + 1
        } else {
            n
        };
        let line = vstd::slice::slice_to_vec(vstd::slice::slice_subrange(input, start, end));
        proof {
            assert forall|t: int| 0 <= t < j - start implies tail[t] != LINE_FEED by {
                assert(tail[t] == input@[start + t]);
            }
            if j < n {
                assert(tail[j - start] == input@[j as int]);
            }
            lemma_first_break_is(tail, j - start);
            if j < n {
                assert(tail.take(j - start + 1) =~= input@.subrange(start as int, end as int));
                assert(tail.skip(j - start + 1) =~= input@.skip(end as int));
            } else {
                assert(tail =~= input@.subrange(start as int, end as int));
                assert(lines_of(tail) == seq![tail]);
                assert(input@.skip(end as int) =~= Seq::<u8>::empty());
            }
            assert(lines_of(tail) == seq![line@] + lines_of(input@.skip(end as int)));
        }
        lines.push(line);
        proof {
            assert(lines.deep_view() =~~= pre.push(line@));
            assert(pre.push(line@) + lines_of(input@.skip(end as int)) =~~= pre + lines_of(tail));
        }
        start = end;
    }
    proof {
        assert(input@.skip(start as int) =~= Seq::<u8>::empty());
        assert(lines.deep_view() + lines_of(input@.skip(start as int)) =~= lines.deep_view());
    }
    lines
}

/// Length of `l` once trailing terminator bytes are dropped.
fn trim_len(l: &Vec<u8>) -> (t: usize)
    ensures
        t <= l@.len(),
        l@.take(t as int) == trimmed(l@),
{
    let mut t = l.len();
    proof {
        assert(l@.take(l@.len() as int) =~= l@);
    }
    while t > 0 && (l[t - 1] == LINE_FEED || l[t - 1] == CARRIAGE_RETURN)
        invariant
            t <= l@.len(),
            trimmed(l@.take(t as int)) == trimmed(l@),
        decreases t,
    {
        proof {
            assert(l@.take(t as int)[t - 1] == l@[t - 1]);
            assert(l@.take(t as int).drop_last() =~= l@.take(t - 1));
        }
        t = t - 1;
    }
    proof {
        if t > 0 {
            assert(l@.take(t as int)[t - 1] == l@[t - 1]);
        }
        assert(trimmed(l@.take(t as int)) == l@.take(t as int));
    }
    t
}

/// Whether two lines are equal once trailing terminator bytes are dropped.
pub fn eq_trimmed(a: &Vec<u8>, b: &Vec<u8>) -> (r: bool)
    ensures
        r == (trimmed(a@) == trimmed(b@)),
{
    let ta = trim_len(a);
    let tb = trim_len(b);
    if ta != tb {
        proof {
            assert(trimmed(a@).len() == ta);
            assert(trimmed(b@).len() == tb);
        }
        return false;
    }
    let mut k: usize = 0;
    while k < ta
        invariant
            k <= ta,
            ta == tb <= a@.len(),
            tb <= b@.len(),
            a@.take(ta as int) == trimmed(a@),
            b@.take(tb as int) == trimmed(b@),
            forall|p: int| 0 <= p < k ==> a@[p] == b@[p],
        decreases ta - k,
    {
        if a[k] != b[k] {
            proof {
                assert(trimmed(a@)[k as int] == a@[k as int]);
                assert(trimmed(b@)[k as int] == b@[k as int]);
            }
            return false;
        }
        k = k + 1;
    }
    proof {
        assert(trimmed(a@) =~= trimmed(b@));
    }
    true
}

} // verus!
