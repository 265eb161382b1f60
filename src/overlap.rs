use vstd::prelude::*;

verus! {

broadcast use vstd::seq_lib::group_to_multiset_ensures;

/// One occurrence of a rule's pattern in a line: the half-open byte range
/// `[start, end)` and the position of the rule in its rule list.
#[derive(Clone, Copy, Debug, PartialEq, Eq, Structural)]
pub struct Match {
    pub start: usize,
    pub end: usize,
    pub rule: usize,
}

impl Match {
    pub open spec fn len(self) -> int {
        self.end - self.start
    }

    pub open spec fn wf(self) -> bool {
        self.start <= self.end
    }

    /// True when byte `i` of the line lies inside the match.
    pub open spec fn covers(self, i: int) -> bool {
        self.start <= i < self.end
    }
}

pub open spec fn all_wf(s: Seq<Match>) -> bool {
    forall|i: int| 0 <= i < s.len() ==> (#[trigger] s[i]).wf()
}

/// The order in which matches are considered: earlier start first, then the
/// longer match, then the rule declared first.
pub open spec fn key_le(a: Match, b: Match) -> bool {
    ||| a.start < b.start
    ||| a.start == b.start && a.len() > b.len()
    ||| a.start == b.start && a.len() == b.len() && a.rule <= b.rule
}

pub open spec fn sorted_by_key(s: Seq<Match>) -> bool {
    forall|i: int, j: int| 0 <= i < j < s.len() ==> key_le(#[trigger] s[i], #[trigger] s[j])
}

/// `s` holds the matches of `orig`, in the order of `key_le`.
pub open spec fn is_sorted_form(s: Seq<Match>, orig: Seq<Match>) -> bool {
    s.to_multiset() == orig.to_multiset() && sorted_by_key(s)
}

/// The end of the last accepted match, 0 when none is.
pub open spec fn last_end(acc: Seq<Match>) -> int {
    if acc.len() == 0 {
        0
    } else {
        acc.last().end as int
    }
}

/// Scans `s` from left to right and keeps a match only when it starts at or
/// after the end of the last match kept.
pub open spec fn accept_scan(s: Seq<Match>) -> Seq<Match>
    decreases s.len(),
{
    if s.len() == 0 {
        seq![]
    } else {
        let prev = accept_scan(s.drop_last());
        if s.last().start >= last_end(prev) {
            prev.push(s.last())
        } else {
            prev
        }
    }
}

/// Every accepted match starts at or after the end of the one before it.
pub open spec fn is_chain(acc: Seq<Match>) -> bool {
    forall|i: int| 0 < i < acc.len() ==> acc[i - 1].end <= (#[trigger] acc[i]).start
}

fn key_le_exec(a: &Match, b: &Match) -> (r: bool)
    requires
        a.wf(),
        b.wf(),
    ensures
        r == key_le(*a, *b),
{
    if a.start != b.start {
        a.start < b.start
    } else if a.end - a.start != b.end - b.start {
        a.end - a.start > b.end - b.start
    } else {
        a.rule <= b.rule
    }
}

/// Orders matches by start, then by descending length, then by rule.
pub fn sort_matches(v: &Vec<Match>) -> (r: Vec<Match>)
    requires
        all_wf(v@),
    ensures
        is_sorted_form(r@, v@),
{
    let mut out: Vec<Match> = Vec::new();
    let n = v.len();
    let mut i: usize = 0;
    while i < n
        invariant
            n == v@.len(),
            i <= n,
            all_wf(v@),
            out@.to_multiset() == v@.subrange(0, i as int).to_multiset(),
            sorted_by_key(out@),
            all_wf(out@),
        decreases n - i,
    {
        let m = v[i];
        let mut j: usize = 0;
        while j < out.len() && key_le_exec(&out[j], &m)
            invariant
                j <= out@.len(),
                m.wf(),
                all_wf(out@),
                forall|k: int| 0 <= k < j ==> key_le(#[trigger] out@[k], m),
            decreases out@.len() - j,
        {
            j = j + 1;
        }
        proof {
            assert(v@.subrange(0, i as int + 1) =~= v@.subrange(0, i as int).push(m));
        }
        let ghost before = out@;
        out.insert(j, m);
        proof {
            assert(out@ =~= before.insert(j as int, m));
            assert forall|a: int, b: int| 0 <= a < b < out@.len() implies key_le(
                #[trigger] out@[a],
                #[trigger] out@[b],
            ) by {
                if b < j {
                    assert(out@[a] == before[a] && out@[b] == before[b]);
                } else if b == j {
                    assert(out@[a] == before[a]);
                } else if a == j {
                    assert(out@[b] == before[b - 1]);
                    assert(!key_le(before[j as int], m));
                    if b - 1 > j {
                        assert(key_le(before[j as int], before[b - 1]));
                    }
                } else if a < j {
                    assert(out@[a] == before[a] && out@[b] == before[b - 1]);
                } else {
                    assert(out@[a] == before[a - 1] && out@[b] == before[b - 1]);
                }
            }
        }
        i = i + 1;
    }
    proof {
        assert(v@.subrange(0, n as int) =~= v@);
    }
    out
}

/// Keeps, from matches already in key order, each one that starts at or after
/// the end of the last one kept.
pub fn select_disjoint(sorted: &Vec<Match>) -> (r: Vec<Match>)
    ensures
        r@ == accept_scan(sorted@),
{
    let mut out: Vec<Match> = Vec::new();
    let mut last: usize = 0;
    let n = sorted.len();
    let mut i: usize = 0;
    while i < n
        invariant
            n == sorted@.len(),
            i <= n,
            out@ == accept_scan(sorted@.subrange(0, i as int)),
            last as int == last_end(out@),
        decreases n - i,
    {
        let m = sorted[i];
        proof {
            let p = sorted@.subrange(0, i as int + 1);
            assert(p.drop_last() =~= sorted@.subrange(0, i as int));
            assert(p.last() == m);
        }
        if m.start >= last {
            out.push(m);
            last = m.end;
        }
        i = i + 1;
    }
    proof {
        assert(sorted@.subrange(0, n as int) =~= sorted@);
    }
    out
}

/// Resolves overlapping matches: sorts them by key and keeps the greedy
/// left-to-right selection.
pub fn resolve_overlaps(matches: &Vec<Match>) -> (r: Vec<Match>)
    requires
        all_wf(matches@),
    ensures
        exists|s: Seq<Match>| is_sorted_form(s, matches@) && r@ == #[trigger] accept_scan(s),
{
    let sorted = sort_matches(matches);
    let r = select_disjoint(&sorted);
    assert(is_sorted_form(sorted@, matches@) && r@ == accept_scan(sorted@));
    r
}

/// Every match that the scan keeps is one of the matches scanned.
pub proof fn lemma_accept_scan_from(s: Seq<Match>)
    ensures
        forall|i: int| 0 <= i < accept_scan(s).len() ==> s.contains(#[trigger] accept_scan(s)[i]),
    decreases s.len(),
{
    if s.len() > 0 {
        let p = s.drop_last();
        lemma_accept_scan_from(p);
        assert forall|i: int| 0 <= i < accept_scan(s).len() implies s.contains(
            #[trigger] accept_scan(s)[i],
        ) by {
            if i < accept_scan(p).len() {
                let x = accept_scan(p)[i];
                assert(accept_scan(s)[i] == x);
                let k = choose|k: int| 0 <= k < p.len() && p[k] == x;
                assert(s[k] == x);
            } else {
                assert(accept_scan(s)[i] == s.last());
                assert(s[s.len() - 1] == s.last());
            }
        }
    }
}

/// The scan keeps a chain: each kept match starts at or after the end of the
/// match kept before it.
pub proof fn lemma_accept_scan_chain(s: Seq<Match>)
    ensures
        is_chain(accept_scan(s)),
    decreases s.len(),
{
    if s.len() > 0 {
        lemma_accept_scan_chain(s.drop_last());
    }
}

/// In a chain of well-formed matches, each match ends at or before the start
/// of every later match.
pub proof fn lemma_chain_ordered(acc: Seq<Match>, i: int, j: int)
    requires
        is_chain(acc),
        all_wf(acc),
        0 <= i < j < acc.len(),
    ensures
        acc[i].end <= acc[j].start,
    decreases j - i,
{
    if j > i + 1 {
        lemma_chain_ordered(acc, i, j - 1);
        assert(acc[j - 1].wf());
        assert(acc[j - 1].end <= acc[j].start);
    } else {
        assert(acc[j].start >= acc[j - 1].end);
    }
}

/// No two matches kept by overlap resolution share a byte of the line.
pub proof fn lemma_resolved_disjoint(matches: Seq<Match>, s: Seq<Match>)
    requires
        all_wf(matches),
        is_sorted_form(s, matches),
    ensures
        forall|i: int, j: int, k: int|
            0 <= i < j < accept_scan(s).len() ==> !(#[trigger] accept_scan(s)[i].covers(k)
                && #[trigger] accept_scan(s)[j].covers(k)),
{
    let acc = accept_scan(s);
    lemma_accept_scan_from(s);
    lemma_accept_scan_chain(s);
    assert forall|i: int| 0 <= i < acc.len() implies (#[trigger] acc[i]).wf() by {
        assert(s.contains(acc[i]));
        assert(s.to_multiset().count(acc[i]) > 0);
        assert(matches.contains(acc[i]));
    }
    assert forall|i: int, j: int, k: int|
        0 <= i < j < acc.len() implies !(#[trigger] acc[i].covers(k) && #[trigger] acc[j].covers(
        k,
    )) by {
        lemma_chain_ordered(acc, i, j);
    }
}

/// After the scan passes a non-empty match, the last kept match ends after
/// that match's start.
proof fn lemma_scan_passes(s: Seq<Match>, j: int)
    requires
        all_wf(s),
        0 <= j < s.len(),
        s[j].len() > 0,
    ensures
        last_end(accept_scan(s)) > s[j].start,
    decreases s.len(),
{
    let p = s.drop_last();
    if j < s.len() - 1 {
        assert(p[j] == s[j]);
        assert(all_wf(p));
        lemma_scan_passes(p, j);
        assert(s.last().wf());
    }
}

/// The tie rule of overlap resolution: a non-empty kept match comes first, in
/// key order, among all found matches with the same start. So a longer match
/// beats a shorter one that starts with it, and of two equal spans the one of
/// the rule declared first is kept.
pub proof fn lemma_kept_match_wins_ties(matches: Seq<Match>, s: Seq<Match>, i: int, x: Match)
    requires
        all_wf(matches),
        is_sorted_form(s, matches),
        0 <= i < accept_scan(s).len(),
        accept_scan(s)[i].len() > 0,
        matches.contains(x),
        x.start == accept_scan(s)[i].start,
        x != accept_scan(s)[i],
    ensures
        key_le(accept_scan(s)[i], x),
{
    assert(matches.to_multiset().count(x) > 0);
    assert(s.contains(x));
    assert(all_wf(s)) by {
        assert forall|k: int| 0 <= k < s.len() implies (#[trigger] s[k]).wf() by {
            assert(s.to_multiset().count(s[k]) > 0);
            assert(matches.contains(s[k]));
        }
    }
    let j = choose|j: int| 0 <= j < s.len() && s[j] == x;
    lemma_kept_first_in_scan(s, i, j);
}

proof fn lemma_kept_first_in_scan(s: Seq<Match>, i: int, j: int)
    requires
        all_wf(s),
        sorted_by_key(s),
        0 <= i < accept_scan(s).len(),
        accept_scan(s)[i].len() > 0,
        0 <= j < s.len(),
        s[j].start == accept_scan(s)[i].start,
        s[j] != accept_scan(s)[i],
    ensures
        key_le(accept_scan(s)[i], s[j]),
    decreases s.len(),
{
    let p = s.drop_last();
    let x = s.last();
    let last = s.len() - 1;
    let m = accept_scan(s)[i];
    assert(all_wf(p));
    assert(sorted_by_key(p));
    lemma_accept_scan_from(p);
    if i < accept_scan(p).len() {
        assert(accept_scan(s)[i] == accept_scan(p)[i]);
        if j < last {
            assert(p[j] == s[j]);
            lemma_kept_first_in_scan(p, i, j);
        } else {
            assert(p.contains(m));
            let k = choose|k: int| 0 <= k < p.len() && p[k] == m;
            assert(s[k] == m);
            assert(key_le(s[k], s[last]));
        }
    } else {
        assert(m == x);
        assert(x.start >= last_end(accept_scan(p)));
        if j < last {
            assert(key_le(s[j], s[last]));
            assert(p[j] == s[j]);
            assert(s[j].wf());
            if s[j].len() > 0 {
                lemma_scan_passes(p, j);
            }
        }
    }
}

proof fn lemma_longer_blocks_in_scan(s: Seq<Match>, i: int, j: int)
    requires
        all_wf(s),
        sorted_by_key(s),
        0 <= i < accept_scan(s).len(),
        0 <= j < s.len(),
        s[j].start == accept_scan(s)[i].start,
    ensures
        s[j].len() <= accept_scan(s)[i].len(),
    decreases s.len(),
{
    let p = s.drop_last();
    let last = s.len() - 1;
    let m = accept_scan(s)[i];
    assert(all_wf(p));
    assert(sorted_by_key(p));
    lemma_accept_scan_from(p);
    if i < accept_scan(p).len() {
        assert(accept_scan(s)[i] == accept_scan(p)[i]);
        if j < last {
            assert(p[j] == s[j]);
            lemma_longer_blocks_in_scan(p, i, j);
        } else {
            assert(p.contains(m));
            let k = choose|k: int| 0 <= k < p.len() && p[k] == m;
            assert(s[k] == m);
            assert(key_le(s[k], s[last]));
        }
    } else {
        assert(m == s.last());
        assert(m.start >= last_end(accept_scan(p)));
        if j < last && s[j].len() > m.len() {
            assert(p[j] == s[j]);
            assert(s[j].wf());
            lemma_scan_passes(p, j);
        }
    }
}

/// Longer-match preference: no kept match has a longer match, of any rule,
/// starting at the same offset; such a shorter match is dropped whole, even
/// when it is empty.
pub proof fn lemma_longer_match_wins(matches: Seq<Match>, s: Seq<Match>, i: int, x: Match)
    requires
        all_wf(matches),
        is_sorted_form(s, matches),
        0 <= i < accept_scan(s).len(),
        matches.contains(x),
        x.start == accept_scan(s)[i].start,
    ensures
        x.len() <= accept_scan(s)[i].len(),
{
    assert(matches.to_multiset().count(x) > 0);
    assert(s.contains(x));
    assert(all_wf(s)) by {
        assert forall|k: int| 0 <= k < s.len() implies (#[trigger] s[k]).wf() by {
            assert(s.to_multiset().count(s[k]) > 0);
            assert(matches.contains(s[k]));
        }
    }
    let j = choose|j: int| 0 <= j < s.len() && s[j] == x;
    lemma_longer_blocks_in_scan(s, i, j);
}

} // verus!
