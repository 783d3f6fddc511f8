//! The problem written out as plain text, one line of decimal integers
//! after another, for programs that read whitespace-separated numbers.
use vstd::prelude::*;
use crate::scanner::{is_space, is_digit, all_digits, digits_value, decimal_value, split_ws, law_split_at_space};
use crate::task::{Input, PointInput};

verus! {

/// The decimal digits of `n`, most significant first, with no leading zero.
pub open spec fn digits_of(n: nat) -> Seq<u8>
    decreases n,
{
    if n < 10 {
        seq![(48 + n) as u8]
    } else {
        digits_of(n / 10).push((48 + n % 10) as u8)
    }
}

/// How the integer `v` is written: a `-` sign if it is negative, then its
/// digits.
pub open spec fn int_text(v: int) -> Seq<u8> {
    if v < 0 {
        seq![45u8] + digits_of((-v) as nat)
    } else {
        digits_of(v as nat)
    }
}

/// The numbers `nums` written with one space between them.
pub open spec fn join_nums(nums: Seq<int>) -> Seq<u8>
    decreases nums.len(),
{
    if nums.len() == 0 {
        Seq::empty()
    } else if nums.len() == 1 {
        int_text(nums[0])
    } else {
        join_nums(nums.drop_last()) + seq![32u8] + int_text(nums.last())
    }
}

/// The lines `ls`, each written as its numbers and a line feed.
pub open spec fn lines_text(ls: Seq<Seq<int>>) -> Seq<u8>
    decreases ls.len(),
{
    if ls.len() == 0 {
        Seq::empty()
    } else {
        lines_text(ls.drop_last()) + join_nums(ls.last()) + seq![10u8]
    }
}

/// The numbers of the lines `ls`, one line after another.
pub open spec fn numbers(ls: Seq<Seq<int>>) -> Seq<int>
    decreases ls.len(),
{
    if ls.len() == 0 {
        Seq::empty()
    } else {
        numbers(ls.drop_last()) + ls.last()
    }
}

/// The line of a point: its two coordinates.
pub open spec fn point_line(p: PointInput) -> Seq<int> {
    seq![p@[0] as int, p@[1] as int]
}

/// The line of an edge: the indices of its two endpoints.
pub open spec fn edge_line(e: Seq<usize>) -> Seq<int> {
    seq![e[0] as int, e[1] as int]
}

/// The lines of a problem: the number of vertices of the hole and each of
/// them, the number of edges and each of them, the number of vertices of the
/// figure and each of them, and the tolerance.
pub open spec fn input_lines(t: Input) -> Seq<Seq<int>> {
    seq![seq![t.hole@.len() as int]] + t.hole@.map_values(|p: PointInput| point_line(p)) + seq![
        seq![t.figure.edges@.len() as int],
    ] + t.figure.edges@.map_values(|e: Vec<usize>| edge_line(e@)) + seq![
        seq![t.figure.vertices@.len() as int],
    ] + t.figure.vertices@.map_values(|p: PointInput| point_line(p)) + seq![seq![t.epsilon as int]]
}

proof fn lemma_digits_of(n: nat)
    ensures
        digits_of(n).len() >= 1,
        all_digits(digits_of(n)),
        digits_value(digits_of(n)) == n,
    decreases n,
{
    let d = digits_of(n);
    if n >= 10 {
        lemma_digits_of(n / 10);
        assert(d.drop_last() =~= digits_of(n / 10));
        assert(d.last() == 48 + n % 10);
        assert((n / 10) * 10 + n % 10 == n) by (nonlinear_arith);
        assert(is_digit(d.last()));
        assert(digits_value(d) == digits_value(d.drop_last()) * 10 + (d.last() - 48) as nat);
        assert(digits_value(d.drop_last()) == n / 10);
    } else {
        assert(d.drop_last() =~= Seq::<u8>::empty());
        assert(d.last() == 48 + n);
        assert(digits_value(d) == digits_value(d.drop_last()) * 10 + (d.last() - 48) as nat);
    }
}

/// A token with no whitespace in it is read as itself.
proof fn lemma_split_token(t: Seq<u8>)
    requires
        t.len() >= 1,
        forall|i: int| 0 <= i < t.len() ==> !is_space(#[trigger] t[i]),
    ensures
        split_ws(t) == seq![t],
    decreases t.len(),
{
    assert(!is_space(t[t.len() - 1]));
    if t.len() == 1 {
        assert(t.drop_last() =~= Seq::<u8>::empty());
        assert(split_ws(t.drop_last()) =~= Seq::<Seq<u8>>::empty());
        assert(seq![t.last()] =~= t);
        assert(split_ws(t) =~= seq![seq![t.last()]]);
    } else {
        assert(!is_space(t[t.len() - 2]));
        let dl = t.drop_last();
        assert forall|i: int| 0 <= i < dl.len() implies !is_space(#[trigger] dl[i]) by {
            assert(dl[i] == t[i]);
        }
        lemma_split_token(dl);
        assert(dl.push(t.last()) =~= t);
        assert(split_ws(t) =~= seq![dl].update(0, dl.push(t.last())));
    }
}

proof fn lemma_int_text(v: int)
    ensures
        int_text(v).len() >= 1,
        forall|i: int| 0 <= i < int_text(v).len() ==> !is_space(#[trigger] int_text(v)[i]),
        decimal_value(int_text(v), true) == Some(v),
        v >= 0 ==> decimal_value(int_text(v), false) == Some(v),
        split_ws(int_text(v)) == seq![int_text(v)],
{
    let m = if v < 0 {
        (-v) as nat
    } else {
        v as nat
    };
    lemma_digits_of(m);
    let d = digits_of(m);
    let s = int_text(v);
    if v < 0 {
        assert(s.skip(1) =~= d);
        assert(!is_digit(s[0]));
        assert forall|i: int| 0 <= i < s.len() implies !is_space(#[trigger] s[i]) by {
            if i > 0 {
                assert(s[i] == d[i - 1]);
                assert(is_digit(d[i - 1]));
            }
        }
    } else {
        assert forall|i: int| 0 <= i < s.len() implies !is_space(#[trigger] s[i]) by {
            assert(is_digit(d[i]));
        }
        assert(!(s[0] == 43u8));
        assert(!(s[0] == 45u8));
    }
    lemma_split_token(s);
}

proof fn lemma_split_trailing_space(a: Seq<u8>, sp: u8)
    requires
        is_space(sp),
    ensures
        split_ws(a + seq![sp]) == split_ws(a),
{
    assert((a + seq![sp]).drop_last() =~= a);
}

proof fn lemma_split_join(nums: Seq<int>)
    ensures
        split_ws(join_nums(nums)) == nums.map_values(|v: int| int_text(v)),
    decreases nums.len(),
{
    if nums.len() == 0 {
        assert(split_ws(join_nums(nums)) =~= nums.map_values(|v: int| int_text(v)));
    } else if nums.len() == 1 {
        lemma_int_text(nums[0]);
        assert(nums.map_values(|v: int| int_text(v)) =~= seq![int_text(nums[0])]);
    } else {
        lemma_split_join(nums.drop_last());
        lemma_int_text(nums.last());
        law_split_at_space(join_nums(nums.drop_last()), 32u8, int_text(nums.last()));
        assert(nums.map_values(|v: int| int_text(v)) =~= nums.drop_last().map_values(|v: int| int_text(v))
            + seq![int_text(nums.last())]);
    }
}

/// The tokens of the text of lines `ls` are their numbers, written out.
proof fn lemma_split_lines(ls: Seq<Seq<int>>)
    ensures
        split_ws(lines_text(ls)) == numbers(ls).map_values(|v: int| int_text(v)),
    decreases ls.len(),
{
    if ls.len() == 0 {
        assert(numbers(ls).map_values(|v: int| int_text(v)) =~= Seq::<Seq<u8>>::empty());
    } else {
        let prev = ls.drop_last();
        lemma_split_lines(prev);
        lemma_split_join(ls.last());
        let j = join_nums(ls.last());
        lemma_split_trailing_space(j, 10u8);
        if prev.len() == 0 {
            assert(lines_text(prev) =~= Seq::<u8>::empty());
            assert(lines_text(ls) =~= j + seq![10u8]);
        } else {
            let p = lines_text(prev.drop_last()) + join_nums(prev.last());
            assert(lines_text(prev) =~= p + seq![10u8]);
            lemma_split_trailing_space(p, 10u8);
            assert(lines_text(ls) =~= p + seq![10u8] + (j + seq![10u8]));
            law_split_at_space(p, 10u8, j + seq![10u8]);
        }
        assert(numbers(ls).map_values(|v: int| int_text(v)) =~= numbers(prev).map_values(
            |v: int| int_text(v),
        ) + ls.last().map_values(|v: int| int_text(v)));
    }
}

/// What is written can be read back: each token of the text of lines `ls`
/// spells the number in its place, as a signed integer and, where the
/// number is not negative, as an unsigned one.
pub proof fn law_lines_read_back(ls: Seq<Seq<int>>)
    ensures
        split_ws(lines_text(ls)).len() == numbers(ls).len(),
        forall|i: int|
            0 <= i < numbers(ls).len() ==> decimal_value(#[trigger] split_ws(lines_text(ls))[i], true)
                == Some(numbers(ls)[i]),
        forall|i: int|
            0 <= i < numbers(ls).len() && numbers(ls)[i] >= 0 ==> decimal_value(
                #[trigger] split_ws(lines_text(ls))[i],
                false,
            ) == Some(numbers(ls)[i]),
{
    lemma_split_lines(ls);
    assert forall|i: int| 0 <= i < numbers(ls).len() implies decimal_value(
        #[trigger] split_ws(lines_text(ls))[i],
        true,
    ) == Some(numbers(ls)[i]) && (numbers(ls)[i] >= 0 ==> decimal_value(
        split_ws(lines_text(ls))[i],
        false,
    ) == Some(numbers(ls)[i])) by {
        lemma_int_text(numbers(ls)[i]);
    }
}

/// Appends the digits of `n`.
fn push_digits(out: &mut Vec<u8>, n: u128)
    ensures
        final(out)@ == old(out)@ + digits_of(n as nat),
    decreases n,
{
    if n >= 10 {
        push_digits(out, n / 10);
    }
    let d = (n % 10) as u8;
    out.push(48 + d);
    assert(final(out)@ =~= old(out)@ + digits_of(n as nat)) by {
        if n >= 10 {
            assert(digits_of(n as nat) == digits_of((n / 10) as nat).push((48 + n % 10) as u8));
        }
    }
}

/// Appends how the integer `v` is written.
fn push_int(out: &mut Vec<u8>, v: i128)
    requires
        v > i128::MIN,
    ensures
        final(out)@ == old(out)@ + int_text(v as int),
{
    if v < 0 {
        out.push(45);
        push_digits(out, (-v) as u128);
    } else {
        push_digits(out, v as u128);
    }
    assert(final(out)@ =~= old(out)@ + int_text(v as int));
}

/// Appends a line of one number.
fn push_line1(out: &mut Vec<u8>, a: i128)
    requires
        a > i128::MIN,
    ensures
        final(out)@ == old(out)@ + join_nums(seq![a as int]) + seq![10u8],
{
    push_int(out, a);
    out.push(10);
    assert(final(out)@ =~= old(out)@ + join_nums(seq![a as int]) + seq![10u8]);
}

/// Appends a line of two numbers.
fn push_line2(out: &mut Vec<u8>, a: i128, b: i128)
    requires
        a > i128::MIN,
        b > i128::MIN,
    ensures
        final(out)@ == old(out)@ + join_nums(seq![a as int, b as int]) + seq![10u8],
{
    push_int(out, a);
    out.push(32);
    push_int(out, b);
    out.push(10);
    let ghost two = seq![a as int, b as int];
    assert(two.drop_last() =~= seq![a as int]);
    assert(join_nums(seq![a as int]) == int_text(a as int));
    assert(join_nums(two) == join_nums(two.drop_last()) + seq![32u8] + int_text(two.last()));
    assert(final(out)@ =~= old(out)@ + join_nums(seq![a as int, b as int]) + seq![10u8]);
}

/// Appends one line per point.
fn push_points(out: &mut Vec<u8>, pts: &Vec<PointInput>, Ghost(before): Ghost<Seq<Seq<int>>>)
    requires
        old(out)@ == lines_text(before),
    ensures
        final(out)@ == lines_text(before + pts@.map_values(|p: PointInput| point_line(p))),
{
    for i in 0..pts.len()
        invariant
            out@ == lines_text(before + pts@.take(i as int).map_values(|p: PointInput| point_line(p))),
    {
        let p = pts[i];
        push_line2(out, p[0] as i128, p[1] as i128);
        let ghost prev = before + pts@.take(i as int).map_values(|q: PointInput| point_line(q));
        let ghost next = before + pts@.take(i + 1).map_values(|q: PointInput| point_line(q));
        assert(next =~= prev.push(point_line(p)));
        assert(next.drop_last() =~= prev);
    }
    assert(pts@.take(pts@.len() as int) =~= pts@);
}

/// The problem written out: the number of vertices of the hole, then one
/// line per vertex; the number of edges, then one line per edge; the number
/// of vertices of the figure, then one line per vertex; the tolerance.
pub fn input_text(t: &Input) -> (r: Vec<u8>)
    requires
        forall|i: int| 0 <= i < t.figure.edges@.len() ==> (#[trigger] t.figure.edges@[i])@.len() >= 2,
    ensures
        r@ == lines_text(input_lines(*t)),
{
    let mut out: Vec<u8> = Vec::new();
    let ghost l0 = seq![seq![t.hole@.len() as int]];
    push_line1(&mut out, t.hole.len() as i128);
    assert(l0.drop_last() =~= Seq::<Seq<int>>::empty());
    assert(lines_text(l0.drop_last()) =~= Seq::<u8>::empty());
    assert(l0.last() =~= seq![t.hole@.len() as int]);
    assert(out@ =~= lines_text(l0));
    push_points(&mut out, &t.hole, Ghost(l0));
    let ghost l1 = l0 + t.hole@.map_values(|p: PointInput| point_line(p));
    let ghost l2 = l1.push(seq![t.figure.edges@.len() as int]);
    push_line1(&mut out, t.figure.edges.len() as i128);
    assert(l2.drop_last() =~= l1);
    assert(out@ =~= lines_text(l2));
    let edges = &t.figure.edges;
    for i in 0..edges.len()
        invariant
            edges == t.figure.edges,
            forall|k: int| 0 <= k < edges@.len() ==> (#[trigger] edges@[k])@.len() >= 2,
            out@ == lines_text(l2 + edges@.take(i as int).map_values(|e: Vec<usize>| edge_line(e@))),
    {
        let e = &edges[i];
        push_line2(&mut out, e[0] as i128, e[1] as i128);
        let ghost prev = l2 + edges@.take(i as int).map_values(|e: Vec<usize>| edge_line(e@));
        let ghost next = l2 + edges@.take(i + 1).map_values(|e: Vec<usize>| edge_line(e@));
        assert(next =~= prev.push(edge_line(e@)));
        assert(next.drop_last() =~= prev);
    }
    assert(edges@.take(edges@.len() as int) =~= edges@);
    let ghost l3 = l2 + edges@.map_values(|e: Vec<usize>| edge_line(e@));
    let ghost l4 = l3.push(seq![t.figure.vertices@.len() as int]);
    push_line1(&mut out, t.figure.vertices.len() as i128);
    assert(l4.drop_last() =~= l3);
    assert(out@ =~= lines_text(l4));
    push_points(&mut out, &t.figure.vertices, Ghost(l4));
    let ghost l5 = l4 + t.figure.vertices@.map_values(|p: PointInput| point_line(p));
    let ghost l6 = l5.push(seq![t.epsilon as int]);
    push_line1(&mut out, t.epsilon as i128);
    assert(l6.drop_last() =~= l5);
    assert(l6 =~= input_lines(*t));
    out
}

} // verus!
