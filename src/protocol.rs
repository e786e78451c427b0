//! Text of the interactive protocol: the query line and the final answer.
use vstd::prelude::*;

verus! {

/// Decimal digits of `v`, most significant first, without leading zeros.
pub open spec fn decimal(v: nat) -> Seq<u8>
    decreases v,
{
    if v < 10 {
        seq![(48 + v) as u8]
    } else {
        decimal(v / 10) + seq![(48 + v % 10) as u8]
    }
}

/// Each id preceded by one space.
pub open spec fn spaced(s: Seq<usize>) -> Seq<u8>
    decreases s.len(),
{
    if s.len() == 0 {
        seq![]
    } else {
        spaced(s.drop_last()) + seq![32u8] + decimal(s.last() as nat)
    }
}

/// The ids separated by single spaces.
pub open spec fn joined(s: Seq<usize>) -> Seq<u8> {
    if s.len() == 0 {
        seq![]
    } else {
        decimal(s[0] as nat) + spaced(s.drop_first())
    }
}

/// One line `a b` per edge.
pub open spec fn edge_lines(e: Seq<(usize, usize)>) -> Seq<u8>
    decreases e.len(),
{
    if e.len() == 0 {
        seq![]
    } else {
        edge_lines(e.drop_last()) + decimal(e.last().0 as nat) + seq![32u8] + decimal(
            e.last().1 as nat,
        ) + seq![10u8]
    }
}

/// For the first `k` groups: the line of its cities, then its edges.
pub open spec fn answer_body(groups: Seq<Seq<usize>>, edges: Seq<Seq<(usize, usize)>>, k: int) -> Seq<
    u8,
>
    decreases k,
{
    if k <= 0 {
        seq![]
    } else {
        answer_body(groups, edges, k - 1) + joined(groups[k - 1]) + seq![10u8] + edge_lines(
            edges[k - 1],
        )
    }
}

/// `? k id_1 ... id_k` and a line break.
pub open spec fn query_text(cities: Seq<usize>) -> Seq<u8> {
    seq![63u8, 32u8] + decimal(cities.len()) + spaced(cities) + seq![10u8]
}

/// Appends the decimal digits of `v`.
pub fn push_decimal(out: &mut Vec<u8>, v: usize)
    ensures
        final(out)@ == old(out)@ + decimal(v as nat),
    decreases v,
{
    let ghost start = out@;
    if v >= 10 {
        push_decimal(out, v / 10);
    }
    out.push((48 + v % 10) as u8);
    assert(out@ =~= start + decimal(v as nat));
}

/// Appends each id of `s`, preceded by one space.
fn push_spaced(out: &mut Vec<u8>, s: &[usize])
    ensures
        final(out)@ == old(out)@ + spaced(s@),
{
    let ghost start = out@;
    let mut i: usize = 0;
    assert(s@.take(0) =~= Seq::<usize>::empty());
    while i < s.len()
        invariant
            i <= s@.len(),
            out@ == start + spaced(s@.take(i as int)),
        decreases s@.len() - i,
    {
        out.push(32u8);
        push_decimal(out, s[i]);
        assert(s@.take(i + 1).drop_last() =~= s@.take(i as int));
        i = i + 1;
    }
    assert(s@.take(i as int) =~= s@);
}

/// The query line for a window of cities.
pub fn query_line(cities: &[usize]) -> (r: Vec<u8>)
    ensures
        r@ == query_text(cities@),
{
    let mut out: Vec<u8> = Vec::new();
    out.push(63u8);
    out.push(32u8);
    push_decimal(&mut out, cities.len());
    push_spaced(&mut out, cities);
    out.push(10u8);
    assert(out@ =~= query_text(cities@));
    out
}

/// The final answer: `!`, then for each group the line of its cities in
/// path order followed by one line per edge.
pub fn answer_text(groups: &[Vec<usize>], edges: &[Vec<(usize, usize)>]) -> (r: Vec<u8>)
    requires
        groups@.len() == edges@.len(),
    ensures
        r@ == seq![33u8, 10u8] + answer_body(
            Seq::new(groups@.len(), |g: int| groups@[g]@),
            Seq::new(edges@.len(), |g: int| edges@[g]@),
            groups@.len() as int,
        ),
{
    let ghost gs = Seq::new(groups@.len(), |g: int| groups@[g]@);
    let ghost es = Seq::new(edges@.len(), |g: int| edges@[g]@);
    let mut out: Vec<u8> = Vec::new();
    out.push(33u8);
    out.push(10u8);
    let mut g: usize = 0;
    while g < groups.len()
        invariant
            groups@.len() == edges@.len(),
            gs == Seq::new(groups@.len(), |h: int| groups@[h]@),
            es == Seq::new(edges@.len(), |h: int| edges@[h]@),
            g <= groups@.len(),
            out@ == seq![33u8, 10u8] + answer_body(gs, es, g as int),
        decreases groups@.len() - g,
    {
        let ghost before = out@;
        let group = &groups[g];
        if group.len() > 0 {
            push_decimal(&mut out, group[0]);
            let ghost mid = out@;
            let mut k: usize = 1;
            assert(group@.subrange(1, 1) =~= Seq::<usize>::empty());
            while k < group.len()
                invariant
                    1 <= k <= group@.len(),
                    out@ == mid + spaced(group@.subrange(1, k as int)),
                decreases group@.len() - k,
            {
                out.push(32u8);
                push_decimal(&mut out, group[k]);
                assert(group@.subrange(1, k + 1).drop_last() =~= group@.subrange(1, k as int));
                k = k + 1;
            }
            assert(group@.subrange(1, k as int) =~= group@.drop_first());
        }
        assert(out@ =~= before + joined(gs[g as int]));
        out.push(10u8);
        let ghost mid2 = out@;
        let es_g = &edges[g];
        let mut e: usize = 0;
        assert(es_g@.take(0) =~= Seq::<(usize, usize)>::empty());
        while e < es_g.len()
            invariant
                e <= es_g@.len(),
                out@ == mid2 + edge_lines(es_g@.take(e as int)),
            decreases es_g@.len() - e,
        {
            let (a, b) = es_g[e];
            push_decimal(&mut out, a);
            out.push(32u8);
            push_decimal(&mut out, b);
            out.push(10u8);
            assert(es_g@.take(e + 1).drop_last() =~= es_g@.take(e as int));
            e = e + 1;
        }
        assert(es_g@.take(e as int) =~= es_g@);
        assert(es[g as int] == es_g@);
        assert(out@ =~= seq![33u8, 10u8] + answer_body(gs, es, g + 1));
        g = g + 1;
    }
    out
}

} // verus!
