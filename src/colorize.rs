use crate::color::style_is_named;
use crate::config::{Rule, RuleView, rule_views, spans_of};
use crate::overlap::{
    Match,
    accept_scan,
    all_wf,
    is_chain,
    is_sorted_form,
    last_end,
    lemma_accept_scan_chain,
    lemma_accept_scan_from,
    resolve_overlaps,
};
use crate::text::{lemma_boundary_in_suffix, lemma_encode_concat};
use vstd::prelude::*;
use vstd::utf8::*;
use vstd::string::StringSliceAdditionalSpecFns;

verus! {

broadcast use vstd::seq_lib::group_to_multiset_ensures;

/// What the `Display` of a `colored::ColoredString` writes for `text` in the
/// named colors `fg` and `bg` when coloring is on.
pub uninterp spec fn colored_of(
    text: Seq<char>,
    fg: colored::Color,
    bg: Option<colored::Color>,
) -> Seq<char>;

/// Relies on the `Display` of `colored::ColoredString`: the text wrapped in
/// terminal color codes for `fg` and `bg`, or left bare where the environment
/// turns coloring off; either way the result is no shorter than the text.
#[verifier::external_body]
fn paint(text: &str, fg: colored::Color, bg: Option<colored::Color>) -> (r: String)
    requires
        style_is_named(fg, bg),
    ensures
        r@ == text@ || r@ == colored_of(text@, fg, bg),
        encode_utf8(r@).len() >= text.spec_bytes().len(),
{
    let mut styled = colored::ColoredString::from(text);
    styled.fgcolor = Some(fg);
    styled.bgcolor = bg;
    styled.to_string()
}

/// `m` lies inside the line whose bytes are `line`, on character boundaries.
pub open spec fn in_line(m: Match, line: Seq<u8>) -> bool {
    &&& m.wf()
    &&& m.end <= line.len()
    &&& is_char_boundary(line, m.start as int)
    &&& is_char_boundary(line, m.end as int)
}

/// `m` is a match of one of `nrules` rules inside the line whose bytes are `line`.
pub open spec fn match_in_line(m: Match, line: Seq<u8>, nrules: int) -> bool {
    &&& in_line(m, line)
    &&& m.rule < nrules
}

pub open spec fn all_in_line(ms: Seq<Match>, line: Seq<u8>, nrules: int) -> bool {
    forall|i: int| 0 <= i < ms.len() ==> match_in_line(#[trigger] ms[i], line, nrules)
}

/// The output up to the end of the last accepted match: for each match, the
/// bare bytes since the previous one, then its styled bytes.
pub open spec fn assemble_prefix(line: Seq<u8>, acc: Seq<Match>, styled: Seq<Seq<u8>>) -> Seq<
    u8,
>
    decreases acc.len(),
{
    if acc.len() == 0 || styled.len() == 0 {
        seq![]
    } else {
        assemble_prefix(line, acc.drop_last(), styled.drop_last()) + line.subrange(
            last_end(acc.drop_last()),
            acc.last().start as int,
        ) + styled.last()
    }
}

/// The whole output: the accepted matches with their styled bytes, then the
/// rest of the line bare.
pub open spec fn assemble(line: Seq<u8>, acc: Seq<Match>, styled: Seq<Seq<u8>>) -> Seq<u8> {
    assemble_prefix(line, acc, styled) + line.subrange(last_end(acc), line.len() as int)
}

/// Each accepted match's own bytes, with no styling.
pub open spec fn destyled(line: Seq<u8>, acc: Seq<Match>) -> Seq<Seq<u8>> {
    Seq::new(acc.len(), |i: int| line.subrange(acc[i].start as int, acc[i].end as int))
}

/// One styled piece for each accepted match, none shorter than its match.
pub open spec fn styled_fits(acc: Seq<Match>, styled: Seq<Seq<u8>>) -> bool {
    &&& styled.len() == acc.len()
    &&& forall|i: int| 0 <= i < acc.len() ==> (#[trigger] styled[i]).len() >= acc[i].len()
}

/// The bytes of the line that a match covers.
pub open spec fn segment(line: Seq<u8>, m: Match) -> Seq<u8> {
    line.subrange(m.start as int, m.end as int)
}

/// `piece` shows the match `m` of `rule`: its bytes bare, or those bytes in the
/// rule's colors.
pub open spec fn piece_of(line: Seq<u8>, m: Match, rule: RuleView, piece: Seq<u8>) -> bool {
    ||| piece == segment(line, m)
    ||| piece == encode_utf8(colored_of(decode_utf8(segment(line, m)), rule.fg, rule.bg))
}

/// One piece for each accepted match, showing that match in its rule's colors
/// and no shorter than it.
pub open spec fn pieces_for(
    line: Seq<u8>,
    acc: Seq<Match>,
    rules: Seq<RuleView>,
    styled: Seq<Seq<u8>>,
) -> bool {
    &&& styled_fits(acc, styled)
    &&& forall|i: int|
        0 <= i < acc.len() ==> piece_of(line, acc[i], rules[acc[i].rule as int], #[trigger] styled[i])
}

/// `out` renders `line` from the matches `found` of `rules`: after overlap
/// resolution, each kept match appears as its piece and every other byte bare.
pub open spec fn is_rendering(
    out: Seq<u8>,
    line: Seq<u8>,
    found: Seq<Match>,
    rules: Seq<RuleView>,
) -> bool {
    exists|s: Seq<Match>, styled: Seq<Seq<u8>>|
        is_sorted_form(s, found) && pieces_for(line, accept_scan(s), rules, styled) && out
            == #[trigger] assemble(line, accept_scan(s), styled)
}

/// The bytes of each painted piece.
pub open spec fn piece_bytes(v: Seq<String>) -> Seq<Seq<u8>> {
    v.map_values(|p: String| encode_utf8(p@))
}

/// A rule's spans tagged with the rule's position `k`.
pub open spec fn tagged(spans: Seq<(usize, usize)>, k: int) -> Seq<Match> {
    Seq::new(spans.len(), |i: int| Match { start: spans[i].0, end: spans[i].1, rule: k as usize })
}

/// The matches of every rule in the line, rule by rule in declaration order,
/// each rule's in the order its pattern reports them.
pub open spec fn found_in(rules: Seq<RuleView>, hay: Seq<char>) -> Seq<Match>
    decreases rules.len(),
{
    if rules.len() == 0 {
        seq![]
    } else {
        found_in(rules.drop_last(), hay) + tagged(
            spans_of(rules.last().pattern, hay),
            rules.len() - 1,
        )
    }
}

/// Finds, rule by rule, every match of each rule's pattern in the line.
pub fn find_matches(line: &str, rules: &Vec<Rule>) -> (r: Vec<Match>)
    ensures
        r@ == found_in(rule_views(rules@), line@),
        all_in_line(r@, line.spec_bytes(), rules@.len() as int),
{
    let ghost rv = rule_views(rules@);
    let mut out: Vec<Match> = Vec::new();
    let n = rules.len();
    let mut k: usize = 0;
    proof {
        assert(rv.subrange(0, 0) =~= Seq::<RuleView>::empty());
    }
    while k < n
        invariant
            n == rules@.len(),
            rv == rule_views(rules@),
            k <= n,
            out@ == found_in(rv.subrange(0, k as int), line@),
            all_in_line(out@, line.spec_bytes(), n as int),
        decreases n - k,
    {
        let spans = rules[k].find_spans(line);
        let ghost base = out@;
        let mut j: usize = 0;
        proof {
            assert(base =~= base + tagged(spans@, k as int).subrange(0, 0));
        }
        while j < spans.len()
            invariant
                k < n,
                n == rules@.len(),
                j <= spans@.len(),
                out@ == base + tagged(spans@, k as int).subrange(0, j as int),
                all_in_line(out@, line.spec_bytes(), n as int),
                forall|i: int|
                    0 <= i < spans@.len() ==> {
                        let (s, e) = #[trigger] spans@[i];
                        &&& s <= e <= line.spec_bytes().len()
                        &&& is_char_boundary(line.spec_bytes(), s as int)
                        &&& is_char_boundary(line.spec_bytes(), e as int)
                    },
            decreases spans@.len() - j,
        {
            let (s, e) = spans[j];
            out.push(Match { start: s, end: e, rule: k });
            proof {
                assert(out@ =~= base + tagged(spans@, k as int).subrange(0, j as int + 1));
            }
            j = j + 1;
        }
        proof {
            let q = rv.subrange(0, k as int + 1);
            assert(q.drop_last() =~= rv.subrange(0, k as int));
            assert(q.last() == rules@[k as int]@);
            assert(tagged(spans@, k as int).subrange(0, spans@.len() as int) =~= tagged(
                spans@,
                k as int,
            ));
        }
        k = k + 1;
    }
    proof {
        assert(rv.subrange(0, n as int) =~= rv);
    }
    out
}

proof fn lemma_assemble_step(line: Seq<u8>, acc: Seq<Match>, styled: Seq<Seq<u8>>, i: int)
    requires
        0 <= i < acc.len(),
        styled.len() == i + 1,
    ensures
        assemble_prefix(line, acc.subrange(0, i + 1), styled) == assemble_prefix(
            line,
            acc.subrange(0, i),
            styled.drop_last(),
        ) + line.subrange(last_end(acc.subrange(0, i)), acc[i].start as int) + styled.last(),
{
    assert(acc.subrange(0, i + 1).drop_last() =~= acc.subrange(0, i));
}

/// Writes the line with each accepted match replaced by its painted piece.
pub fn render(line: &str, acc: &Vec<Match>, painted: &Vec<String>) -> (r: String)
    requires
        is_chain(acc@),
        forall|i: int| 0 <= i < acc@.len() ==> in_line(#[trigger] acc@[i], line.spec_bytes()),
        painted@.len() == acc@.len(),
    ensures
        encode_utf8(r@) == assemble(line.spec_bytes(), acc@, piece_bytes(painted@)),
{
    let ghost bytes = line.spec_bytes();
    let ghost all = piece_bytes(painted@);
    let ghost mut styled: Seq<Seq<u8>> = seq![];
    proof {
        encode_utf8_valid_utf8(line@);
        assert(encode_utf8(Seq::<char>::empty()) =~= Seq::<u8>::empty());
        assert(bytes.subrange(0, bytes.len() as int) =~= bytes);
    }
    let mut out = String::new();
    let mut rest: &str = line;
    let mut cursor: usize = 0;
    let n = acc.len();
    let mut i: usize = 0;
    while i < n
        invariant
            n == acc@.len(),
            i <= n,
            bytes == line.spec_bytes(),
            valid_utf8(bytes),
            is_chain(acc@),
            forall|k: int| 0 <= k < acc@.len() ==> in_line(#[trigger] acc@[k], bytes),
            painted@.len() == acc@.len(),
            all == piece_bytes(painted@),
            cursor as int == last_end(acc@.subrange(0, i as int)),
            cursor <= bytes.len(),
            is_char_boundary(bytes, cursor as int),
            rest.spec_bytes() == bytes.subrange(cursor as int, bytes.len() as int),
            styled == all.subrange(0, i as int),
            encode_utf8(out@) == assemble_prefix(bytes, acc@.subrange(0, i as int), styled),
        decreases n - i,
    {
        let m = acc[i];
        proof {
            assert(in_line(acc@[i as int], bytes));
            if i > 0 {
                assert(acc@.subrange(0, i as int).last() == acc@[i - 1]);
                assert(acc@[i - 1].end <= acc@[i as int].start);
            }
            lemma_boundary_in_suffix(bytes, cursor as int, m.start as int);
            assert(bytes.subrange(cursor as int, bytes.len() as int).subrange(
                m.start - cursor,
                bytes.len() - cursor,
            ) =~= bytes.subrange(m.start as int, bytes.len() as int));
            assert(bytes.subrange(cursor as int, bytes.len() as int).subrange(0, m.start - cursor)
                =~= bytes.subrange(cursor as int, m.start as int));
            lemma_boundary_in_suffix(bytes, m.start as int, m.end as int);
            assert(bytes.subrange(m.start as int, bytes.len() as int).subrange(
                m.end - m.start,
                bytes.len() - m.start,
            ) =~= bytes.subrange(m.end as int, bytes.len() as int));
            assert(bytes.subrange(m.start as int, bytes.len() as int).subrange(0, m.end - m.start)
                =~= bytes.subrange(m.start as int, m.end as int));
        }
        let (plain, tail) = rest.split_at(m.start - cursor);
        let (seg, after) = tail.split_at(m.end - m.start);
        let p = &painted[i];
        let ghost before = out@;
        proof {
            lemma_encode_concat(before, plain@);
            lemma_encode_concat(before + plain@, p@);
        }
        out.append(plain);
        out.append(p.as_str());
        proof {
            let old_styled = styled;
            styled = styled.push(encode_utf8(p@));
            assert(styled.drop_last() =~= old_styled);
            assert(styled =~= all.subrange(0, i as int + 1));
            lemma_assemble_step(bytes, acc@, styled, i as int);
            assert(acc@.subrange(0, i as int + 1).last() == m);
        }
        rest = after;
        cursor = m.end;
        i = i + 1;
    }
    let ghost before = out@;
    proof {
        lemma_encode_concat(before, rest@);
        assert(acc@.subrange(0, n as int) =~= acc@);
        assert(styled =~= all);
    }
    out.append(rest);
    assert(encode_utf8(out@) == assemble(bytes, acc@, styled));
    out
}

/// Paints each accepted match in its rule's colors.
pub fn paint_matches(line: &str, rules: &Vec<Rule>, acc: &Vec<Match>) -> (r: Vec<String>)
    requires
        all_in_line(acc@, line.spec_bytes(), rules@.len() as int),
    ensures
        r@.len() == acc@.len(),
        pieces_for(line.spec_bytes(), acc@, rule_views(rules@), piece_bytes(r@)),
{
    let ghost bytes = line.spec_bytes();
    let ghost rv = rule_views(rules@);
    proof {
        encode_utf8_valid_utf8(line@);
    }
    let mut out: Vec<String> = Vec::new();
    let n = acc.len();
    let mut i: usize = 0;
    while i < n
        invariant
            n == acc@.len(),
            i <= n,
            bytes == line.spec_bytes(),
            valid_utf8(bytes),
            rv == rule_views(rules@),
            all_in_line(acc@, bytes, rules@.len() as int),
            out@.len() == i,
            forall|k: int|
                0 <= k < i ==> {
                    &&& (#[trigger] piece_bytes(out@)[k]).len() >= acc@[k].len()
                    &&& piece_of(bytes, acc@[k], rv[acc@[k].rule as int], piece_bytes(out@)[k])
                },
        decreases n - i,
    {
        let m = acc[i];
        proof {
            assert(match_in_line(acc@[i as int], bytes, rules@.len() as int));
            lemma_boundary_in_suffix(bytes, m.start as int, m.end as int);
            assert(bytes.subrange(m.start as int, bytes.len() as int).subrange(0, m.end - m.start)
                =~= segment(bytes, m));
        }
        let (_, tail) = line.split_at(m.start);
        let (seg, _) = tail.split_at(m.end - m.start);
        let rule = &rules[m.rule];
        let p = paint(seg, rule.fg_color(), rule.bg_color());
        proof {
            encode_utf8_decode_utf8(seg@);
            assert(seg@ == decode_utf8(segment(bytes, m)));
            assert(rv[m.rule as int] == rules@[m.rule as int]@);
        }
        let ghost before = out@;
        out.push(p);
        proof {
            assert forall|k: int| 0 <= k < i + 1 implies {
                &&& (#[trigger] piece_bytes(out@)[k]).len() >= acc@[k].len()
                &&& piece_of(bytes, acc@[k], rv[acc@[k].rule as int], piece_bytes(out@)[k])
            } by {
                if k < i {
                    assert(out@[k] == before[k]);
                    assert(piece_bytes(out@)[k] == piece_bytes(before)[k]);
                } else {
                    assert(out@[k] == p);
                }
            }
        }
        i = i + 1;
    }
    out
}

/// Renders a line from the matches found in it: overlaps are resolved and
/// each kept match is painted in its rule's colors.
pub fn colorize_matches(line: &str, rules: &Vec<Rule>, found: &Vec<Match>) -> (r: String)
    requires
        all_in_line(found@, line.spec_bytes(), rules@.len() as int),
    ensures
        is_rendering(encode_utf8(r@), line.spec_bytes(), found@, rule_views(rules@)),
        encode_utf8(r@).len() >= line.spec_bytes().len(),
{
    let ghost bytes = line.spec_bytes();
    proof {
        assert forall|i: int| 0 <= i < found@.len() implies (#[trigger] found@[i]).wf() by {
            assert(match_in_line(found@[i], bytes, rules@.len() as int));
        }
    }
    let acc = resolve_overlaps(found);
    let ghost s = choose|s: Seq<Match>| is_sorted_form(s, found@) && acc@ == accept_scan(s);
    proof {
        lemma_accept_scan_chain(s);
        lemma_accept_scan_from(s);
        assert forall|i: int| 0 <= i < acc@.len() implies match_in_line(
            #[trigger] acc@[i],
            bytes,
            rules@.len() as int,
        ) by {
            assert(s.contains(acc@[i]));
            assert(s.to_multiset().count(acc@[i]) > 0);
            assert(found@.contains(acc@[i]));
        }
    }
    let painted = paint_matches(line, rules, &acc);
    proof {
        assert forall|i: int| 0 <= i < acc@.len() implies in_line(#[trigger] acc@[i], bytes) by {
            assert(match_in_line(acc@[i], bytes, rules@.len() as int));
        }
    }
    let r = render(line, &acc, &painted);
    proof {
        assert(is_rendering(encode_utf8(r@), bytes, found@, rule_views(rules@)));
        lemma_rendering_not_shorter(
            encode_utf8(r@),
            bytes,
            rules@.len() as int,
            found@,
            rule_views(rules@),
        );
    }
    r
}

/// Colorizes one line: bare when coloring is off or there are no rules,
/// otherwise with the matches that each rule's pattern reports, overlaps
/// resolved, painted in their rules' colors.
pub fn apply_color_rules(line: &str, rules: &Vec<Rule>, use_color: bool) -> (r: String)
    ensures
        !use_color || rules@.len() == 0 ==> r@ == line@,
        use_color && rules@.len() > 0 ==> is_rendering(
            encode_utf8(r@),
            line.spec_bytes(),
            found_in(rule_views(rules@), line@),
            rule_views(rules@),
        ),
        encode_utf8(r@).len() >= line.spec_bytes().len(),
{
    if !use_color || rules.len() == 0 {
        return line.to_owned();
    }
    let found = find_matches(line, rules);
    if found.len() == 0 {
        let r = line.to_owned();
        proof {
            let bytes = line.spec_bytes();
            let s: Seq<Match> = seq![];
            let styled: Seq<Seq<u8>> = seq![];
            assert(found@ =~= s);
            assert(assemble_prefix(bytes, accept_scan(s), styled) =~= Seq::<u8>::empty());
            assert(bytes.subrange(0, bytes.len() as int) =~= bytes);
            assert(encode_utf8(r@) == assemble(bytes, accept_scan(s), styled));
            assert(pieces_for(bytes, accept_scan(s), rule_views(rules@), styled));
            assert(is_rendering(encode_utf8(r@), bytes, found@, rule_views(rules@)));
        }
        return r;
    }
    colorize_matches(line, rules, &found)
}

/// Concatenating the bare pieces of a rendering and the accepted matches with
/// their styling taken off gives back the line.
pub proof fn lemma_coverage(line: Seq<u8>, acc: Seq<Match>)
    requires
        is_chain(acc),
        all_wf(acc),
        last_end(acc) <= line.len(),
    ensures
        assemble(line, acc, destyled(line, acc)) == line,
{
    lemma_coverage_prefix(line, acc);
    assert(line.subrange(0, last_end(acc)) + line.subrange(last_end(acc), line.len() as int)
        =~= line);
}

proof fn lemma_coverage_prefix(line: Seq<u8>, acc: Seq<Match>)
    requires
        is_chain(acc),
        all_wf(acc),
        last_end(acc) <= line.len(),
    ensures
        assemble_prefix(line, acc, destyled(line, acc)) == line.subrange(0, last_end(acc)),
    decreases acc.len(),
{
    if acc.len() > 0 {
        let p = acc.drop_last();
        let n = acc.len() - 1;
        assert(destyled(line, acc).drop_last() =~= destyled(line, p));
        assert(acc[n].wf());
        if n > 0 {
            assert(acc[n - 1].end <= acc[n].start);
            assert(p.last() == acc[n - 1]);
        }
        assert(is_chain(p));
        assert(all_wf(p));
        lemma_coverage_prefix(line, p);
        assert(line.subrange(0, last_end(p)) + line.subrange(last_end(p), acc[n].start as int)
            + line.subrange(acc[n].start as int, acc[n].end as int) =~= line.subrange(
            0,
            acc[n].end as int,
        ));
    }
}

/// Coverage of a rendering: for the matches found in a line, taking the
/// styling off the kept matches and joining them with the bare pieces gives
/// back the line exactly.
pub proof fn lemma_rendering_coverage(line: Seq<u8>, nrules: int, found: Seq<Match>, s: Seq<Match>)
    requires
        all_in_line(found, line, nrules),
        is_sorted_form(s, found),
    ensures
        assemble(line, accept_scan(s), destyled(line, accept_scan(s))) == line,
{
    let acc = accept_scan(s);
    lemma_accept_scan_chain(s);
    lemma_accept_scan_from(s);
    assert forall|i: int| 0 <= i < acc.len() implies match_in_line(
        #[trigger] acc[i],
        line,
        nrules,
    ) by {
        assert(s.contains(acc[i]));
        assert(s.to_multiset().count(acc[i]) > 0);
        assert(found.contains(acc[i]));
    }
    if acc.len() > 0 {
        assert(match_in_line(acc[acc.len() - 1], line, nrules));
    }
    lemma_coverage(line, acc);
}

proof fn lemma_assemble_prefix_len(line: Seq<u8>, acc: Seq<Match>, styled: Seq<Seq<u8>>)
    requires
        is_chain(acc),
        all_wf(acc),
        styled_fits(acc, styled),
        last_end(acc) <= line.len(),
    ensures
        assemble_prefix(line, acc, styled).len() >= last_end(acc),
    decreases acc.len(),
{
    if acc.len() > 0 {
        let p = acc.drop_last();
        let n = acc.len() - 1;
        assert(acc[n].wf());
        if n > 0 {
            assert(acc[n - 1].end <= acc[n].start);
            assert(p.last() == acc[n - 1]);
        }
        assert(is_chain(p));
        assert(all_wf(p));
        assert(styled_fits(p, styled.drop_last())) by {
            assert forall|k: int| 0 <= k < p.len() implies (#[trigger] styled.drop_last()[k]).len()
                >= p[k].len() by {
                assert(styled.drop_last()[k] == styled[k]);
            }
        }
        assert(styled[n].len() >= acc[n].len());
        lemma_assemble_prefix_len(line, p, styled.drop_last());
    }
}

/// A rendering is never shorter than its line.
pub proof fn lemma_rendering_not_shorter(
    out: Seq<u8>,
    line: Seq<u8>,
    nrules: int,
    found: Seq<Match>,
    rules: Seq<RuleView>,
)
    requires
        all_in_line(found, line, nrules),
        is_rendering(out, line, found, rules),
    ensures
        out.len() >= line.len(),
{
    let (s, styled) = choose|s: Seq<Match>, styled: Seq<Seq<u8>>|
        is_sorted_form(s, found) && pieces_for(line, accept_scan(s), rules, styled) && out
            == #[trigger] assemble(line, accept_scan(s), styled);
    let acc = accept_scan(s);
    lemma_accept_scan_chain(s);
    lemma_accept_scan_from(s);
    assert forall|i: int| 0 <= i < acc.len() implies match_in_line(
        #[trigger] acc[i],
        line,
        nrules,
    ) by {
        assert(s.contains(acc[i]));
        assert(s.to_multiset().count(acc[i]) > 0);
        assert(found.contains(acc[i]));
    }
    if acc.len() > 0 {
        assert(match_in_line(acc[acc.len() - 1], line, nrules));
    }
    lemma_assemble_prefix_len(line, acc, styled);
}

} // verus!
