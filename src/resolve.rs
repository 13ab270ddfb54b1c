use crate::theme::{share, Theme, ThemeInfo};
use std::sync::Arc;
use vstd::prelude::*;

verus! {

/// `s` without any occurrence of `x`.
pub open spec fn without(s: Seq<int>, x: int) -> Seq<int>
    decreases s.len(),
{
    if s.len() == 0 {
        s
    } else if s.last() == x {
        without(s.drop_last(), x)
    } else {
        without(s.drop_last(), x).push(s.last())
    }
}

/// `x` moved to the end of `s`: removed wherever it stood, then appended.
pub open spec fn move_to_end(s: Seq<int>, x: int) -> Seq<int> {
    without(s, x).push(x)
}

/// The chain after appending, in order, the first `n` parents of `ps`, each moved to
/// the end of the chain.
pub open spec fn append_parents(chain: Seq<int>, ps: Seq<int>, n: nat) -> Seq<int>
    decreases n,
{
    if n == 0 || n > ps.len() {
        chain
    } else {
        move_to_end(append_parents(chain, ps, (n - 1) as nat), ps[n - 1])
    }
}

/// The cursor after `p` is moved to the end of `chain`: one place back when `p` stood
/// before it, since everything after `p`'s old place shifts down by one.
pub open spec fn shift(chain: Seq<int>, next: nat, p: int) -> nat {
    if 0 < next <= chain.len() && chain.subrange(0, next as int).contains(p) {
        (next - 1) as nat
    } else {
        next
    }
}

/// The cursor after the first `n` parents of `ps` are moved to the end of `chain`,
/// starting from `next`.
pub open spec fn cursor_after(chain: Seq<int>, ps: Seq<int>, n: nat, next: nat) -> nat
    decreases n,
{
    if n == 0 || n > ps.len() {
        next
    } else {
        shift(append_parents(chain, ps, (n - 1) as nat), cursor_after(chain, ps, (n - 1) as nat, next), ps[n - 1])
    }
}

/// The breadth-first walk that builds an ancestor chain: the theme at `cursor` has its
/// parents moved to the end, then the walk goes on with the theme that followed it
/// (a parent moved from before the cursor is visited again, after the theme that
/// moved it), for at most `fuel` steps or until the cursor passes the end.
pub open spec fn walk(parents: Seq<Seq<int>>, chain: Seq<int>, cursor: nat, fuel: nat) -> Seq<int>
    decreases fuel,
{
    if fuel == 0 || cursor >= chain.len() {
        chain
    } else {
        let node = chain[cursor as int];
        let ps = if 0 <= node < parents.len() {
            parents[node]
        } else {
            seq![]
        };
        walk(
            parents,
            append_parents(chain, ps, ps.len()),
            cursor_after(chain, ps, ps.len(), cursor + 1),
            (fuel - 1) as nat,
        )
    }
}

/// The cursor where the walk of `walk` stops.
pub open spec fn walk_cursor(parents: Seq<Seq<int>>, chain: Seq<int>, cursor: nat, fuel: nat) -> nat
    decreases fuel,
{
    if fuel == 0 || cursor >= chain.len() {
        cursor
    } else {
        let node = chain[cursor as int];
        let ps = if 0 <= node < parents.len() {
            parents[node]
        } else {
            seq![]
        };
        walk_cursor(
            parents,
            append_parents(chain, ps, ps.len()),
            cursor_after(chain, ps, ps.len(), cursor + 1),
            (fuel - 1) as nat,
        )
    }
}

/// The walk from theme `t` visits every theme of its chain within its step budget.
pub open spec fn walk_completes(parents: Seq<Seq<int>>, t: int) -> bool {
    walk_cursor(parents, seq![t], 0, parents.len() * parents.len()) >= walk(
        parents,
        seq![t],
        0,
        parents.len() * parents.len(),
    ).len()
}

/// Every theme before position `next` has all its parents in the chain.
pub open spec fn closed_upto(parents: Seq<Seq<int>>, chain: Seq<int>, next: nat) -> bool {
    forall|y: int, p: int|
        #![trigger chain.subrange(0, next as int).contains(y), parents[y].contains(p)]
        chain.subrange(0, next as int).contains(y) && 0 <= y < parents.len() && parents[y].contains(p)
            ==> chain.contains(p)
}

/// Every parent of every theme of the chain is in the chain; the fallback theme, which
/// is added whether or not it is reached, is left out of this unless it was reached.
pub open spec fn chain_closed(parents: Seq<Seq<int>>, chain: Seq<int>, fallback: Option<int>) -> bool {
    forall|y: int, p: int|
        #![trigger chain.contains(y), parents[y].contains(p)]
        chain.contains(y) && fallback != Some(y) && 0 <= y < parents.len() && parents[y].contains(p)
            ==> chain.contains(p)
}

/// `u` stands before `v` in `s`.
pub open spec fn before(s: Seq<int>, u: int, v: int) -> bool {
    exists|i: int, j: int| 0 <= i < j < s.len() && #[trigger] s[i] == u && #[trigger] s[j] == v
}

/// Every theme before position `next` stands before each of its parents (other than
/// itself).
pub open spec fn ordered_upto(parents: Seq<Seq<int>>, chain: Seq<int>, next: nat) -> bool {
    forall|y: int, p: int|
        #![trigger chain.subrange(0, next as int).contains(y), parents[y].contains(p)]
        chain.subrange(0, next as int).contains(y) && 0 <= y < parents.len() && parents[y].contains(p) && p != y
            ==> before(chain, y, p)
}

/// Every theme of the chain stands before each of its parents (other than itself):
/// a theme comes after every theme that refers to it. The fallback theme, moved to the
/// end whatever refers to it, is left out as a referrer.
pub open spec fn chain_ordered(parents: Seq<Seq<int>>, chain: Seq<int>, fallback: Option<int>) -> bool {
    forall|y: int, p: int|
        #![trigger chain.contains(y), parents[y].contains(p)]
        chain.contains(y) && fallback != Some(y) && 0 <= y < parents.len() && parents[y].contains(p) && p != y
            ==> before(chain, y, p)
}

/// The ancestor chain of theme `t`, given the parents of each theme by position: the
/// theme itself, then its ancestors breadth-first, each placed after the last theme
/// that refers to it; the fallback theme, when there is one, is moved to the end.
pub open spec fn chain_of(parents: Seq<Seq<int>>, t: int, fallback: Option<int>) -> Seq<int> {
    let c = walk(parents, seq![t], 0, parents.len() * parents.len());
    match fallback {
        Some(h) => move_to_end(c, h),
        None => c,
    }
}

/// Every element of `s` lies in `0..n`.
pub open spec fn all_below(s: Seq<int>, n: int) -> bool {
    forall|i: int| 0 <= i < s.len() ==> 0 <= #[trigger] s[i] < n
}

/// Every parent position lies in `0..n`.
pub open spec fn parents_wf(parents: Seq<Seq<int>>) -> bool {
    forall|t: int| 0 <= t < parents.len() ==> all_below(#[trigger] parents[t], parents.len() as int)
}

proof fn lemma_without(s: Seq<int>, x: int)
    ensures
        forall|y: int| #[trigger] without(s, x).contains(y) <==> (s.contains(y) && y != x),
        s.no_duplicates() ==> without(s, x).no_duplicates(),
        without(s, x).len() <= s.len(),
    decreases s.len(),
{
    if s.len() > 0 {
        let r = without(s.drop_last(), x);
        lemma_without(s.drop_last(), x);
        assert forall|y: int| s.contains(y) <==> (s.drop_last().contains(y) || y == s.last()) by {
            if s.contains(y) {
                let i = choose|i: int| 0 <= i < s.len() && s[i] == y;
                if i < s.len() - 1 {
                    assert(s.drop_last()[i] == y);
                }
            }
            if s.drop_last().contains(y) {
                let i = choose|i: int| 0 <= i < s.drop_last().len() && s.drop_last()[i] == y;
                assert(s[i] == y);
            }
            if y == s.last() {
                assert(s[s.len() - 1] == y);
            }
        }
        if s.last() != x {
            let r2 = r.push(s.last());
            assert forall|y: int| r2.contains(y) <==> (r.contains(y) || y == s.last()) by {
                if r2.contains(y) {
                    let i = choose|i: int| 0 <= i < r2.len() && r2[i] == y;
                    if i < r.len() {
                        assert(r[i] == y);
                    }
                }
                if r.contains(y) {
                    let i = choose|i: int| 0 <= i < r.len() && r[i] == y;
                    assert(r2[i] == y);
                }
                if y == s.last() {
                    assert(r2[r.len() as int] == y);
                }
            }
            if s.no_duplicates() {
                assert(!s.drop_last().contains(s.last())) by {
                    if s.drop_last().contains(s.last()) {
                        let i = choose|i: int|
                            0 <= i < s.drop_last().len() && s.drop_last()[i] == s.last();
                        assert(s[i] == s[s.len() - 1]);
                    }
                }
                assert(s.drop_last().no_duplicates());
                assert(!r.contains(s.last()));
                assert(r2.no_duplicates());
            }
        } else {
            if s.no_duplicates() {
                assert(s.drop_last().no_duplicates());
            }
        }
    }
}

proof fn lemma_without_absent(s: Seq<int>, x: int)
    requires
        !s.contains(x),
    ensures
        without(s, x) == s,
    decreases s.len(),
{
    if s.len() > 0 {
        assert(!s.drop_last().contains(x)) by {
            if s.drop_last().contains(x) {
                let i = choose|i: int| 0 <= i < s.drop_last().len() && s.drop_last()[i] == x;
                assert(s[i] == x);
            }
        }
        lemma_without_absent(s.drop_last(), x);
        assert(s.last() != x) by {
            assert(s[s.len() - 1] == s.last());
        }
        assert(s.drop_last().push(s.last()) =~= s);
    }
}

proof fn lemma_without_concat(a: Seq<int>, b: Seq<int>, x: int)
    ensures
        without(a + b, x) == without(a, x) + without(b, x),
    decreases b.len(),
{
    if b.len() == 0 {
        assert(a + b =~= a);
        assert(without(a, x) + without(b, x) =~= without(a, x));
    } else {
        assert((a + b).drop_last() =~= a + b.drop_last());
        assert((a + b).last() == b.last());
        lemma_without_concat(a, b.drop_last(), x);
        if b.last() != x {
            assert(without(a, x) + without(b.drop_last(), x).push(b.last()) =~= (without(a, x) + without(
                b.drop_last(),
                x,
            )).push(b.last()));
        }
    }
}

/// After `p` is moved to the end, the part of the chain before the shifted cursor
/// holds only elements that stood before the old cursor.
proof fn lemma_shift_prefix(s: Seq<int>, next: nat, p: int)
    requires
        s.no_duplicates(),
        next <= s.len(),
    ensures
        shift(s, next, p) <= move_to_end(s, p).len(),
        !move_to_end(s, p).subrange(0, shift(s, next, p) as int).contains(p),
        forall|y: int|
            #[trigger] move_to_end(s, p).subrange(0, shift(s, next, p) as int).contains(y) ==> s.subrange(
                0,
                next as int,
            ).contains(y),
{
    let m = move_to_end(s, p);
    let k = shift(s, next, p);
    lemma_without(s, p);
    if s.contains(p) {
        let q = choose|q: int| 0 <= q < s.len() && s[q] == p;
        let a = s.subrange(0, q);
        let b = s.subrange(q + 1, s.len() as int);
        assert(s =~= a + seq![p] + b);
        assert(!a.contains(p)) by {
            if a.contains(p) {
                let i = choose|i: int| 0 <= i < a.len() && a[i] == p;
                assert(s[i] == s[q]);
            }
        }
        assert(!b.contains(p)) by {
            if b.contains(p) {
                let i = choose|i: int| 0 <= i < b.len() && b[i] == p;
                assert(s[q + 1 + i] == s[q]);
            }
        }
        lemma_without_concat(a + seq![p], b, p);
        lemma_without_concat(a, seq![p], p);
        lemma_without_absent(a, p);
        lemma_without_absent(b, p);
        assert(without(seq![p], p) =~= seq![]) by {
            let one = seq![p];
            assert(one.len() == 1);
            assert(one.last() == p);
            assert(one.drop_last() =~= Seq::<int>::empty());
            assert(without(one.drop_last(), p) == one.drop_last());
        }
        assert(without(s, p) =~= a + b);
        if q < next {
            assert(s.subrange(0, next as int).contains(p)) by {
                assert(s.subrange(0, next as int)[q] == p);
            }
        } else {
            assert(!s.subrange(0, next as int).contains(p)) by {
                if s.subrange(0, next as int).contains(p) {
                    let i = choose|i: int| 0 <= i < next && s.subrange(0, next as int)[i] == p;
                    assert(s[i] == s[q]);
                }
            }
        }
        assert forall|y: int| #[trigger] m.subrange(0, k as int).contains(y) implies s.subrange(0, next as int).contains(y) by {
            let j = choose|j: int| 0 <= j < k && m.subrange(0, k as int)[j] == y;
            if q < next {
                // k == next - 1: positions before q are unchanged, later ones moved down by one
                if j < q {
                    assert(s.subrange(0, next as int)[j] == y);
                } else {
                    assert(a.len() == q);
                    assert(k == next - 1);
                    assert(m[j] == m.subrange(0, k as int)[j]);
                    assert(m[j] == (a + b)[j]);
                    assert((a + b)[j] == b[j - q]);
                    assert(s[j + 1] == b[j - q]);
                    assert(s.subrange(0, next as int)[j + 1] == y);
                }
            } else {
                assert(j < q);
                assert(m[j] == a[j]);
                assert(s.subrange(0, next as int)[j] == y);
            }
        }
    } else {
        lemma_without_absent(s, p);
        assert(!s.subrange(0, next as int).contains(p)) by {
            if s.subrange(0, next as int).contains(p) {
                let i = choose|i: int| 0 <= i < next && s.subrange(0, next as int)[i] == p;
                assert(s[i] == p);
            }
        }
        assert forall|y: int| #[trigger] m.subrange(0, k as int).contains(y) implies s.subrange(0, next as int).contains(y) by {
            let j = choose|j: int| 0 <= j < k && m.subrange(0, k as int)[j] == y;
            assert(m[j] == s[j]);
            assert(s.subrange(0, next as int)[j] == y);
        }
    }
}

proof fn lemma_move_order(s: Seq<int>, p: int)
    requires
        s.no_duplicates(),
    ensures
        forall|u: int, v: int| before(s, u, v) && u != p && v != p ==> #[trigger] before(move_to_end(s, p), u, v),
        forall|u: int| s.contains(u) && u != p ==> #[trigger] before(move_to_end(s, p), u, p),
{
    let m = move_to_end(s, p);
    lemma_without(s, p);
    if s.contains(p) {
        let q = choose|q: int| 0 <= q < s.len() && s[q] == p;
        let a = s.subrange(0, q);
        let b = s.subrange(q + 1, s.len() as int);
        assert(s =~= a + seq![p] + b);
        assert(!a.contains(p)) by {
            if a.contains(p) {
                let i = choose|i: int| 0 <= i < a.len() && a[i] == p;
                assert(s[i] == s[q]);
            }
        }
        assert(!b.contains(p)) by {
            if b.contains(p) {
                let i = choose|i: int| 0 <= i < b.len() && b[i] == p;
                assert(s[q + 1 + i] == s[q]);
            }
        }
        lemma_without_concat(a + seq![p], b, p);
        lemma_without_concat(a, seq![p], p);
        lemma_without_absent(a, p);
        lemma_without_absent(b, p);
        assert(without(seq![p], p) =~= seq![]) by {
            let one = seq![p];
            assert(one.last() == p);
            assert(one.drop_last() =~= Seq::<int>::empty());
            assert(without(one.drop_last(), p) == one.drop_last());
        }
        assert(without(s, p) =~= a + b);
        assert(m.len() == s.len());
        assert forall|i: int| 0 <= i < q implies #[trigger] m[i] == s[i] by {
            assert(m[i] == (a + b)[i]);
        }
        assert forall|i: int| q < i < s.len() implies m[i - 1] == #[trigger] s[i] by {
            assert(m[i - 1] == (a + b)[i - 1]);
            assert((a + b)[i - 1] == b[i - 1 - q]);
        }
        assert forall|u: int, v: int| before(s, u, v) && u != p && v != p implies #[trigger] before(m, u, v) by {
            let (i, j) = choose|i: int, j: int| 0 <= i < j < s.len() && #[trigger] s[i] == u && #[trigger] s[j] == v;
            let i2 = if i < q { i } else { i - 1 };
            let j2 = if j < q { j } else { j - 1 };
            assert(m[i2] == s[i]);
            assert(m[j2] == s[j]);
            assert(0 <= i2 < j2 < m.len());
        }
        assert forall|u: int| s.contains(u) && u != p implies #[trigger] before(m, u, p) by {
            let i = choose|i: int| 0 <= i < s.len() && s[i] == u;
            let i2 = if i < q { i } else { i - 1 };
            assert(m[i2] == s[i]);
            assert(m[m.len() - 1] == p);
        }
    } else {
        lemma_without_absent(s, p);
        assert forall|u: int, v: int| before(s, u, v) && u != p && v != p implies #[trigger] before(m, u, v) by {
            let (i, j) = choose|i: int, j: int| 0 <= i < j < s.len() && #[trigger] s[i] == u && #[trigger] s[j] == v;
            assert(m[i] == s[i] && m[j] == s[j]);
        }
        assert forall|u: int| s.contains(u) && u != p implies #[trigger] before(m, u, p) by {
            let i = choose|i: int| 0 <= i < s.len() && s[i] == u;
            assert(m[i] == s[i]);
            assert(m[s.len() as int] == p);
        }
    }
}

proof fn lemma_append_prefix(chain: Seq<int>, ps: Seq<int>, n: nat, next: nat)
    requires
        chain.no_duplicates(),
        next <= chain.len(),
        n <= ps.len(),
    ensures
        cursor_after(chain, ps, n, next) <= append_parents(chain, ps, n).len(),
        append_parents(chain, ps, n).no_duplicates(),
        forall|y: int|
            #[trigger] append_parents(chain, ps, n).subrange(0, cursor_after(chain, ps, n, next) as int).contains(y)
                ==> chain.subrange(0, next as int).contains(y),
        forall|y: int| chain.contains(y) ==> #[trigger] append_parents(chain, ps, n).contains(y),
        forall|j: int| 0 <= j < n && j < ps.len() ==> append_parents(chain, ps, n).contains(#[trigger] ps[j]),
    decreases n,
{
    if n > 0 && n <= ps.len() {
        let prev = append_parents(chain, ps, (n - 1) as nat);
        let pc = cursor_after(chain, ps, (n - 1) as nat, next);
        lemma_append_prefix(chain, ps, (n - 1) as nat, next);
        lemma_shift_prefix(prev, pc, ps[n - 1]);
        lemma_move_to_end(prev, ps[n - 1]);
        let cur = append_parents(chain, ps, n);
        assert forall|y: int|
            #[trigger] cur.subrange(0, cursor_after(chain, ps, n, next) as int).contains(y) implies chain.subrange(0, next as int).contains(y) by {
            assert(prev.subrange(0, pc as int).contains(y));
        }
        assert forall|j: int| 0 <= j < n && j < ps.len() implies cur.contains(#[trigger] ps[j]) by {
            if j < n - 1 {
                assert(prev.contains(ps[j]));
            }
        }
    }
}

proof fn lemma_append_order(chain: Seq<int>, ps: Seq<int>, n: nat, next: nat)
    requires
        chain.no_duplicates(),
        next <= chain.len(),
        n <= ps.len(),
    ensures
        forall|u: int, j: int|
            #![trigger append_parents(chain, ps, n).subrange(0, cursor_after(chain, ps, n, next) as int).contains(u), ps[j]]
            append_parents(chain, ps, n).subrange(0, cursor_after(chain, ps, n, next) as int).contains(u) && 0 <= j
                < n ==> u != ps[j],
        forall|u: int, v: int|
            before(chain, u, v) && append_parents(chain, ps, n).subrange(0, cursor_after(chain, ps, n, next) as int).contains(u)
                ==> #[trigger] before(append_parents(chain, ps, n), u, v),
        forall|u: int, j: int|
            0 <= j < n && chain.contains(u) && append_parents(chain, ps, n).subrange(0, cursor_after(chain, ps, n, next) as int).contains(u)
                ==> #[trigger] before(append_parents(chain, ps, n), u, ps[j]),
    decreases n,
{
    if n > 0 {
        let prev = append_parents(chain, ps, (n - 1) as nat);
        let pc = cursor_after(chain, ps, (n - 1) as nat, next);
        let p = ps[n - 1];
        let m = append_parents(chain, ps, n);
        let k = cursor_after(chain, ps, n, next);
        lemma_append_order(chain, ps, (n - 1) as nat, next);
        lemma_append_prefix(chain, ps, (n - 1) as nat, next);
        lemma_shift_prefix(prev, pc, p);
        lemma_move_order(prev, p);
        assert forall|u: int, j: int|
            #![trigger m.subrange(0, k as int).contains(u), ps[j]]
            m.subrange(0, k as int).contains(u) && 0 <= j < n implies u != ps[j] by {
            assert(prev.subrange(0, pc as int).contains(u));
        }
        assert forall|u: int, v: int| before(chain, u, v) && m.subrange(0, k as int).contains(u) implies #[trigger] before(m, u, v) by {
            assert(prev.subrange(0, pc as int).contains(u));
            assert(before(prev, u, v));
            assert(u != p);
            let i = choose|i: int| 0 <= i < pc && prev.subrange(0, pc as int)[i] == u;
            assert(prev[i] == u);
            if v != p {
                assert(before(move_to_end(prev, p), u, v));
            } else {
                assert(before(move_to_end(prev, p), u, p));
            }
        }
        assert forall|u: int, j: int|
            0 <= j < n && chain.contains(u) && m.subrange(0, k as int).contains(u) implies #[trigger] before(m, u, ps[j]) by {
            assert(prev.subrange(0, pc as int).contains(u));
            assert(u != p);
            let i = choose|i: int| 0 <= i < pc && prev.subrange(0, pc as int)[i] == u;
            assert(prev[i] == u);
            if j == n - 1 || ps[j] == p {
                assert(before(move_to_end(prev, p), u, p));
            } else {
                assert(before(prev, u, ps[j]));
                assert(before(move_to_end(prev, p), u, ps[j]));
            }
        }
    }
}

proof fn lemma_walk_ordered(parents: Seq<Seq<int>>, chain: Seq<int>, cursor: nat, fuel: nat)
    requires
        parents_wf(parents),
        chain.no_duplicates(),
        all_below(chain, parents.len() as int),
        cursor <= chain.len(),
        ordered_upto(parents, chain, cursor),
    ensures
        ordered_upto(parents, walk(parents, chain, cursor, fuel), walk_cursor(parents, chain, cursor, fuel)),
    decreases fuel,
{
    if fuel > 0 && cursor < chain.len() {
        let node = chain[cursor as int];
        let ps = parents[node];
        let c2 = append_parents(chain, ps, ps.len());
        let n2 = cursor_after(chain, ps, ps.len(), cursor + 1);
        lemma_append_prefix(chain, ps, ps.len(), cursor + 1);
        lemma_append_order(chain, ps, ps.len(), cursor + 1);
        lemma_append_parents(chain, ps, ps.len(), parents.len() as int);
        assert forall|y: int, p: int|
            #![trigger c2.subrange(0, n2 as int).contains(y), parents[y].contains(p)]
            c2.subrange(0, n2 as int).contains(y) && 0 <= y < parents.len() && parents[y].contains(p) && p != y
            implies before(c2, y, p) by {
            let pre = chain.subrange(0, (cursor + 1) as int);
            assert(pre.contains(y));
            let i = choose|i: int| 0 <= i < pre.len() && pre[i] == y;
            if i < cursor {
                assert(chain.subrange(0, cursor as int)[i] == y);
                assert(chain.subrange(0, cursor as int).contains(y));
                assert(before(chain, y, p));
                assert(before(c2, y, p));
            } else {
                assert(y == node);
                assert(chain[cursor as int] == y);
                let j = choose|j: int| 0 <= j < ps.len() && ps[j] == p;
                assert(before(c2, y, ps[j]));
            }
        }
        lemma_walk_ordered(parents, c2, n2, (fuel - 1) as nat);
    }
}

/// When the walk from `t` completes, every theme of its chain but the fallback stands
/// before each of its parents: a theme comes after every theme that refers to it.
pub proof fn lemma_chain_ordered(parents: Seq<Seq<int>>, t: int, fallback: Option<int>)
    requires
        parents_wf(parents),
        0 <= t < parents.len(),
        fallback matches Some(h) ==> 0 <= h < parents.len(),
        walk_completes(parents, t),
    ensures
        chain_ordered(parents, chain_of(parents, t, fallback), fallback),
{
    let start = seq![t];
    assert(all_below(start, parents.len() as int));
    assert(start.no_duplicates());
    assert(ordered_upto(parents, start, 0)) by {
        assert forall|y: int, p: int|
            #![trigger start.subrange(0, 0).contains(y), parents[y].contains(p)]
            start.subrange(0, 0).contains(y) && 0 <= y < parents.len() && parents[y].contains(p) && p != y
            implies before(start, y, p) by {
            assert(start.subrange(0, 0).len() == 0);
        }
    }
    let fuel = parents.len() * parents.len();
    assert(closed_upto(parents, start, 0)) by {
        assert forall|y: int, p: int|
            #![trigger start.subrange(0, 0).contains(y), parents[y].contains(p)]
            start.subrange(0, 0).contains(y) && 0 <= y < parents.len() && parents[y].contains(p)
            implies start.contains(p) by {
            assert(start.subrange(0, 0).len() == 0);
        }
    }
    lemma_walk_closed(parents, start, 0, fuel);
    lemma_walk_ordered(parents, start, 0, fuel);
    lemma_walk(parents, start, 0, fuel);
    let c = walk(parents, start, 0, fuel);
    let k = walk_cursor(parents, start, 0, fuel);
    assert(c.subrange(0, k as int) =~= c);
    let full = chain_of(parents, t, fallback);
    if let Some(h) = fallback {
        lemma_move_order(c, h);
        lemma_move_to_end(c, h);
    }
    assert forall|y: int, p: int|
        #![trigger full.contains(y), parents[y].contains(p)]
        full.contains(y) && fallback != Some(y) && 0 <= y < parents.len() && parents[y].contains(p) && p != y
        implies before(full, y, p) by {
        assert(c.contains(y));
        assert(c.subrange(0, k as int).contains(y));
        assert(before(c, y, p));
        if let Some(h) = fallback {
            if p == h {
                assert(before(move_to_end(c, h), y, h));
            } else {
                assert(before(move_to_end(c, h), y, p));
            }
        }
    }
}

proof fn lemma_walk_closed(parents: Seq<Seq<int>>, chain: Seq<int>, cursor: nat, fuel: nat)
    requires
        parents_wf(parents),
        chain.no_duplicates(),
        all_below(chain, parents.len() as int),
        cursor <= chain.len(),
        closed_upto(parents, chain, cursor),
    ensures
        walk_cursor(parents, chain, cursor, fuel) <= walk(parents, chain, cursor, fuel).len(),
        closed_upto(parents, walk(parents, chain, cursor, fuel), walk_cursor(parents, chain, cursor, fuel)),
    decreases fuel,
{
    if fuel > 0 && cursor < chain.len() {
        let node = chain[cursor as int];
        let ps = parents[node];
        let c2 = append_parents(chain, ps, ps.len());
        let n2 = cursor_after(chain, ps, ps.len(), cursor + 1);
        lemma_append_prefix(chain, ps, ps.len(), cursor + 1);
        lemma_append_parents(chain, ps, ps.len(), parents.len() as int);
        assert forall|y: int, p: int|
            #![trigger c2.subrange(0, n2 as int).contains(y), parents[y].contains(p)]
            c2.subrange(0, n2 as int).contains(y) && 0 <= y < parents.len() && parents[y].contains(p)
            implies c2.contains(p) by {
            let pre = chain.subrange(0, (cursor + 1) as int);
            assert(pre.contains(y));
            let i = choose|i: int| 0 <= i < pre.len() && pre[i] == y;
            if i < cursor {
                assert(chain.subrange(0, cursor as int)[i] == y);
                assert(chain.subrange(0, cursor as int).contains(y));
                assert(chain.contains(p));
            } else {
                assert(y == node);
                let j = choose|j: int| 0 <= j < ps.len() && ps[j] == p;
                assert(c2.contains(ps[j]));
            }
        }
        lemma_walk_closed(parents, c2, n2, (fuel - 1) as nat);
    }
}

/// When the walk from `t` completes, its chain holds every parent of every theme in
/// it, and so the whole transitive closure of `t`'s ancestors.
pub proof fn lemma_chain_closed(parents: Seq<Seq<int>>, t: int, fallback: Option<int>)
    requires
        parents_wf(parents),
        0 <= t < parents.len(),
        fallback matches Some(h) ==> 0 <= h < parents.len(),
        walk_completes(parents, t),
    ensures
        chain_closed(parents, chain_of(parents, t, fallback), fallback),
{
    let start = seq![t];
    assert(all_below(start, parents.len() as int));
    assert(start.no_duplicates());
    assert(closed_upto(parents, start, 0)) by {
        assert forall|y: int, p: int|
            #![trigger start.subrange(0, 0).contains(y), parents[y].contains(p)]
            start.subrange(0, 0).contains(y) && 0 <= y < parents.len() && parents[y].contains(p)
            implies start.contains(p) by {
            assert(start.subrange(0, 0).len() == 0);
        }
    }
    let fuel = parents.len() * parents.len();
    lemma_walk_closed(parents, start, 0, fuel);
    lemma_walk(parents, start, 0, fuel);
    let c = walk(parents, start, 0, fuel);
    let k = walk_cursor(parents, start, 0, fuel);
    assert(c.subrange(0, k as int) =~= c);
    let full = chain_of(parents, t, fallback);
    if let Some(h) = fallback {
        lemma_move_to_end(c, h);
    }
    assert forall|y: int, p: int|
        #![trigger full.contains(y), parents[y].contains(p)]
        full.contains(y) && fallback != Some(y) && 0 <= y < parents.len() && parents[y].contains(p) implies full.contains(p) by {
        assert(c.contains(y));
        assert(c.subrange(0, k as int).contains(y));
        assert(c.contains(p));
    }
}

proof fn lemma_move_to_end(s: Seq<int>, x: int)
    requires
        s.no_duplicates(),
    ensures
        move_to_end(s, x).no_duplicates(),
        move_to_end(s, x).last() == x,
        forall|y: int| #[trigger] move_to_end(s, x).contains(y) <==> (s.contains(y) || y == x),
{
    lemma_without(s, x);
    let w = without(s, x);
    let m = w.push(x);
    assert forall|y: int| m.contains(y) <==> (w.contains(y) || y == x) by {
        if m.contains(y) {
            let i = choose|i: int| 0 <= i < m.len() && m[i] == y;
            if i < w.len() {
                assert(w[i] == y);
            }
        }
        if w.contains(y) {
            let i = choose|i: int| 0 <= i < w.len() && w[i] == y;
            assert(m[i] == y);
        }
        if y == x {
            assert(m[w.len() as int] == y);
        }
    }
    assert(!w.contains(x));
    assert forall|i: int, j: int| 0 <= i < j < m.len() implies m[i] != m[j] by {
        if j == w.len() {
            assert(w[i] == m[i]);
        }
    }
}

proof fn lemma_append_parents(chain: Seq<int>, ps: Seq<int>, n: nat, bound: int)
    requires
        chain.no_duplicates(),
        all_below(chain, bound),
        all_below(ps, bound),
    ensures
        append_parents(chain, ps, n).no_duplicates(),
        all_below(append_parents(chain, ps, n), bound),
        forall|y: int| chain.contains(y) ==> #[trigger] append_parents(chain, ps, n).contains(y),
    decreases n,
{
    if n > 0 && n <= ps.len() {
        let prev = append_parents(chain, ps, (n - 1) as nat);
        lemma_append_parents(chain, ps, (n - 1) as nat, bound);
        lemma_move_to_end(prev, ps[n - 1]);
        let m = move_to_end(prev, ps[n - 1]);
        assert forall|i: int| 0 <= i < m.len() implies 0 <= #[trigger] m[i] < bound by {
            assert(m.contains(m[i]));
            if m[i] != ps[n - 1] {
                let j = choose|j: int| 0 <= j < prev.len() && prev[j] == m[i];
                assert(0 <= prev[j] < bound);
            }
        }
    }
}

proof fn lemma_walk(parents: Seq<Seq<int>>, chain: Seq<int>, cursor: nat, fuel: nat)
    requires
        parents_wf(parents),
        chain.no_duplicates(),
        all_below(chain, parents.len() as int),
    ensures
        walk(parents, chain, cursor, fuel).no_duplicates(),
        all_below(walk(parents, chain, cursor, fuel), parents.len() as int),
        forall|y: int| chain.contains(y) ==> #[trigger] walk(parents, chain, cursor, fuel).contains(y),
    decreases fuel,
{
    if fuel > 0 && cursor < chain.len() {
        let node = chain[cursor as int];
        let ps = parents[node];
        lemma_append_parents(chain, ps, ps.len(), parents.len() as int);
        lemma_walk(
            parents,
            append_parents(chain, ps, ps.len()),
            cursor_after(chain, ps, ps.len(), cursor + 1),
            (fuel - 1) as nat,
        );
    }
}

/// The ancestor chain of a theme holds no theme twice, only positions of known themes,
/// and ends with the fallback theme when there is one.
pub proof fn lemma_chain_of(parents: Seq<Seq<int>>, t: int, fallback: Option<int>)
    requires
        parents_wf(parents),
        0 <= t < parents.len(),
        fallback matches Some(h) ==> 0 <= h < parents.len(),
    ensures
        chain_of(parents, t, fallback).no_duplicates(),
        all_below(chain_of(parents, t, fallback), parents.len() as int),
        chain_of(parents, t, fallback).contains(t),
        fallback matches Some(h) ==> chain_of(parents, t, fallback).last() == h,
{
    let start = seq![t];
    assert(start[0] == t);
    assert(all_below(start, parents.len() as int));
    assert(start.contains(t));
    lemma_walk(parents, start, 0, parents.len() * parents.len());
    let c = walk(parents, start, 0, parents.len() * parents.len());
    if let Some(h) = fallback {
        lemma_move_to_end(c, h);
        let m = move_to_end(c, h);
        assert forall|i: int| 0 <= i < m.len() implies 0 <= #[trigger] m[i] < parents.len() by {
            assert(m.contains(m[i]));
            if m[i] != h {
                let j = choose|j: int| 0 <= j < c.len() && c[j] == m[i];
                assert(0 <= c[j] < parents.len());
            }
        }
    }
}

/// A vector of positions as integers.
pub open spec fn ints(v: Seq<usize>) -> Seq<int> {
    v.map_values(|x: usize| x as int)
}

/// The parent positions of every theme, as integers.
pub open spec fn parents_view(v: Seq<Vec<usize>>) -> Seq<Seq<int>> {
    v.map_values(|ps: Vec<usize>| ints(ps@))
}

fn without_exec(chain: &Vec<usize>, x: usize) -> (r: Vec<usize>)
    ensures
        ints(r@) == without(ints(chain@), x as int),
{
    let mut out: Vec<usize> = Vec::new();
    let mut i: usize = 0;
    assert(ints(chain@).subrange(0, 0) =~= seq![]);
    assert(ints(out@) =~= seq![]);
    while i < chain.len()
        invariant
            i <= chain@.len(),
            ints(out@) == without(ints(chain@).subrange(0, i as int), x as int),
        decreases chain@.len() - i,
    {
        let ghost pre = ints(chain@).subrange(0, i as int);
        let ghost next = ints(chain@).subrange(0, i + 1);
        assert(next.drop_last() =~= pre);
        assert(next.last() == chain@[i as int] as int);
        if chain[i] != x {
            out.push(chain[i]);
        }
        assert(ints(out@) =~= without(next, x as int));
        i = i + 1;
    }
    assert(ints(chain@).subrange(0, chain@.len() as int) =~= ints(chain@));
    out
}

fn contains_before(v: &Vec<usize>, x: usize, k: usize) -> (r: bool)
    requires
        k <= v@.len(),
    ensures
        r == ints(v@).subrange(0, k as int).contains(x as int),
{
    let mut i: usize = 0;
    while i < k
        invariant
            k <= v@.len(),
            i <= k,
            forall|j: int| 0 <= j < i ==> v@[j] != x,
        decreases k - i,
    {
        if v[i] == x {
            assert(ints(v@).subrange(0, k as int)[i as int] == x as int);
            return true;
        }
        i = i + 1;
    }
    assert(!ints(v@).subrange(0, k as int).contains(x as int)) by {
        if ints(v@).subrange(0, k as int).contains(x as int) {
            let j = choose|j: int| 0 <= j < k && ints(v@).subrange(0, k as int)[j] == x as int;
            assert(v@[j] == x);
        }
    }
    false
}

fn move_to_end_exec(chain: &Vec<usize>, x: usize) -> (r: Vec<usize>)
    ensures
        ints(r@) == move_to_end(ints(chain@), x as int),
{
    let mut out = without_exec(chain, x);
    out.push(x);
    assert(ints(out@) =~= without(ints(chain@), x as int).push(x as int));
    out
}

/// The ancestor chain of theme `t`: the theme itself, then its ancestors found
/// breadth-first, each placed after the last theme that refers to it, then the
/// fallback theme, if any, moved to the very end.
pub fn theme_chain(parents: &Vec<Vec<usize>>, t: usize, fallback: Option<usize>) -> (r: Vec<usize>)
    requires
        parents_wf(parents_view(parents@)),
        t < parents@.len(),
        fallback matches Some(h) ==> h < parents@.len(),
    ensures
        ints(r@) == chain_of(
            parents_view(parents@),
            t as int,
            match fallback {
                Some(h) => Some(h as int),
                None => None,
            },
        ),
        ints(r@).no_duplicates(),
        ints(r@).contains(t as int),
        fallback matches Some(h) ==> ints(r@).last() == h as int,
        walk_completes(parents_view(parents@), t as int) ==> chain_closed(
            parents_view(parents@),
            ints(r@),
            match fallback {
                Some(h) => Some(h as int),
                None => None,
            },
        ),
        walk_completes(parents_view(parents@), t as int) ==> chain_ordered(
            parents_view(parents@),
            ints(r@),
            match fallback {
                Some(h) => Some(h as int),
                None => None,
            },
        ),
{
    proof {
        let fb = match fallback {
            Some(h) => Some(h as int),
            None => None,
        };
        lemma_chain_of(parents_view(parents@), t as int, fb);
        if walk_completes(parents_view(parents@), t as int) {
            lemma_chain_closed(parents_view(parents@), t as int, fb);
            lemma_chain_ordered(parents_view(parents@), t as int, fb);
        }
    }
    let ghost pv = parents_view(parents@);
    let n = parents.len();
    proof {
        assert((n as u128) * (n as u128) <= u64::MAX as int * u64::MAX as int) by (nonlinear_arith)
            requires
                n <= u64::MAX,
        ;
    }
    let fuel: u128 = (n as u128) * (n as u128);
    let mut chain: Vec<usize> = Vec::new();
    chain.push(t);
    assert(ints(chain@) =~= seq![t as int]);
    let mut cursor: usize = 0;
    let mut steps: u128 = 0;
    while steps < fuel && cursor < chain.len()
        invariant
            pv == parents_view(parents@),
            n == parents@.len() == pv.len(),
            fuel == n * n,
            parents_wf(pv),
            steps <= fuel,
            all_below(ints(chain@), n as int),
            ints(chain@).no_duplicates(),
            walk(pv, ints(chain@), cursor as nat, (fuel - steps) as nat) == walk(
                pv,
                seq![t as int],
                0,
                (n * n) as nat,
            ),
        decreases fuel - steps,
    {
        let node = chain[cursor];
        assert(ints(chain@)[cursor as int] == node as int);
        assert(0 <= node < n);
        let ps = &parents[node];
        assert(pv[node as int] == ints(ps@));
        let ghost start = ints(chain@);
        let mut next: usize = cursor + 1;
        let mut k: usize = 0;
        while k < ps.len()
            invariant
                0 <= node < n,
                pv == parents_view(parents@),
                n == parents@.len() == pv.len(),
                parents_wf(pv),
                ps == parents@[node as int],
                k <= ps@.len(),
                ints(chain@) == append_parents(start, ints(ps@), k as nat),
                next as nat == cursor_after(start, ints(ps@), k as nat, (cursor + 1) as nat),
                next <= cursor + 1,
            decreases ps@.len() - k,
        {
            let p = ps[k];
            assert(ints(ps@)[k as int] == p as int);
            if next > 0 && next <= chain.len() && contains_before(&chain, p, next) {
                next = next - 1;
            }
            chain = move_to_end_exec(&chain, p);
            k = k + 1;
        }
        proof {
            assert(all_below(pv[node as int], n as int));
            lemma_append_parents(start, ints(ps@), ps@.len(), n as int);
            assert(ints(ps@).len() == ps@.len());
        }
        cursor = next;
        steps = steps + 1;
    }
    match fallback {
        Some(h) => move_to_end_exec(&chain, h),
        None => chain,
    }
}

proof fn lemma_distinct_bounded(s: Seq<int>, m: int)
    requires
        s.no_duplicates(),
        all_below(s, m),
        m >= 0,
    ensures
        s.len() <= m,
{
    s.unique_seq_to_set();
    vstd::set_lib::lemma_int_range(0, m);
    assert forall|x: int| s.to_set().contains(x) implies vstd::set_lib::set_int_range(0, m).contains(x) by {
        let i = choose|i: int| 0 <= i < s.len() && s[i] == x;
        assert(0 <= s[i] < m);
    }
    vstd::set_lib::lemma_len_subset(s.to_set(), vstd::set_lib::set_int_range(0, m));
}

/// The internal name of the universal fallback theme.
pub open spec fn fallback_name() -> Seq<char> {
    seq!['h', 'i', 'c', 'o', 'l', 'o', 'r']
}

/// No two descriptors share an internal name.
pub open spec fn unique_names(infos: Seq<ThemeInfo>) -> bool {
    forall|i: int, j: int|
        0 <= i < infos.len() && 0 <= j < infos.len() && i != j ==> infos[i].internal_name@
            != infos[j].internal_name@
}

/// Descriptor `i` has internal name `n`.
pub open spec fn named(infos: Seq<ThemeInfo>, i: int, n: Seq<char>) -> bool {
    0 <= i < infos.len() && infos[i].internal_name@ == n
}

/// Descriptor `i` is requested, or is the fallback theme.
pub open spec fn is_root(infos: Seq<ThemeInfo>, requested: Seq<String>, i: int) -> bool {
    named(infos, i, fallback_name()) || exists|r: int|
        0 <= r < requested.len() && named(infos, i, #[trigger] requested[r]@)
}

/// Descriptor `i` is a declared parent of descriptor `j`.
pub open spec fn is_parent(infos: Seq<ThemeInfo>, j: int, i: int) -> bool {
    0 <= j < infos.len() && exists|p: int|
        0 <= p < infos[j].index.inherits@.len() && named(
            infos,
            i,
            #[trigger] infos[j].index.inherits@[p]@,
        )
}

/// `c` lists, once each, exactly the descriptors reachable from the requested names and
/// the fallback name: every requested or fallback descriptor is in it, every parent of
/// a listed descriptor is in it, and each listed descriptor is requested, the
/// fallback, or a parent of one listed before it.
pub open spec fn collection_ok(infos: Seq<ThemeInfo>, requested: Seq<String>, c: Seq<int>) -> bool {
    &&& c.no_duplicates()
    &&& all_below(c, infos.len() as int)
    &&& forall|i: int| #[trigger] is_root(infos, requested, i) ==> c.contains(i)
    &&& forall|k: int, i: int|
        0 <= k < c.len() && #[trigger] is_parent(infos, c[k], i) ==> c.contains(i)
    &&& forall|k: int|
        #![trigger c[k]]
        0 <= k < c.len() ==> is_root(infos, requested, c[k]) || exists|j: int|
            0 <= j < k && #[trigger] is_parent(infos, c[j], c[k])
}

fn find_theme(infos: &Vec<ThemeInfo>, name: &String) -> (r: Option<usize>)
    ensures
        r matches Some(i) ==> named(infos@, i as int, name@),
        r is None ==> forall|i: int| !named(infos@, i, name@),
{
    let mut i: usize = 0;
    while i < infos.len()
        invariant
            i <= infos@.len(),
            forall|j: int| 0 <= j < i ==> !named(infos@, j, name@),
        decreases infos@.len() - i,
    {
        if infos[i].internal_name == *name {
            return Some(i);
        }
        i = i + 1;
    }
    None
}

fn position_of(v: &Vec<usize>, x: usize) -> (r: Option<usize>)
    ensures
        r matches Some(k) ==> k < v@.len() && v@[k as int] == x,
        r is None ==> !ints(v@).contains(x as int),
{
    let mut k: usize = 0;
    while k < v.len()
        invariant
            k <= v@.len(),
            forall|j: int| 0 <= j < k ==> v@[j] != x,
        decreases v@.len() - k,
    {
        if v[k] == x {
            return Some(k);
        }
        k = k + 1;
    }
    assert(!ints(v@).contains(x as int)) by {
        if ints(v@).contains(x as int) {
            let j = choose|j: int| 0 <= j < v@.len() && ints(v@)[j] == x as int;
            assert(v@[j] == x);
        }
    }
    None
}

/// The descriptors reachable from the requested names and the fallback name, each
/// once, by position in `infos`.
pub fn collect_themes(infos: &Vec<ThemeInfo>, requested: &Vec<String>) -> (r: Vec<usize>)
    requires
        unique_names(infos@),
    ensures
        collection_ok(infos@, requested@, ints(r@)),
{
    let mut c: Vec<usize> = Vec::new();
    let mut q: usize = 0;
    assert(ints(c@) =~= seq![]);
    while q < requested.len()
        invariant
            q <= requested@.len(),
            unique_names(infos@),
            ints(c@).no_duplicates(),
            all_below(ints(c@), infos@.len() as int),
            forall|r: int, i: int|
                0 <= r < q && #[trigger] named(infos@, i, requested@[r]@) ==> ints(c@).contains(i),
            forall|k: int| 0 <= k < c@.len() ==> is_root(infos@, requested@, #[trigger] ints(c@)[k]),
        decreases requested@.len() - q,
    {
        let ghost before = ints(c@);
        add_root(infos, &mut c, &requested[q]);
        proof {
            assert forall|k: int| 0 <= k < c@.len() implies is_root(infos@, requested@, #[trigger] ints(c@)[k]) by {
                if k >= before.len() {
                    assert(named(infos@, ints(c@)[k], requested@[q as int]@));
                } else {
                    assert(ints(c@)[k] == before[k]);
                }
            }
            assert forall|r: int, i: int|
                0 <= r < q + 1 && #[trigger] named(infos@, i, requested@[r]@) implies ints(c@).contains(i) by {
                if r < q {
                    let j = choose|j: int| 0 <= j < before.len() && before[j] == i;
                    assert(ints(c@)[j] == i);
                }
            }
        }
        q = q + 1;
    }
    let fallback = "hicolor".to_owned();
    proof { reveal_strlit("hicolor"); assert(fallback@ =~= fallback_name()); }
    let ghost before = ints(c@);
    add_root(infos, &mut c, &fallback);
    proof {
        assert forall|k: int| 0 <= k < c@.len() implies is_root(infos@, requested@, #[trigger] ints(c@)[k]) by {
            if k < before.len() {
                assert(ints(c@)[k] == before[k]);
            }
        }
        assert forall|i: int| #[trigger] is_root(infos@, requested@, i) implies ints(c@).contains(i) by {
            if !named(infos@, i, fallback_name()) {
                let r = choose|r: int| 0 <= r < requested@.len() && named(infos@, i, #[trigger] requested@[r]@);
                assert(named(infos@, i, requested@[r]@));
                let j = choose|j: int| 0 <= j < before.len() && before[j] == i;
                assert(ints(c@)[j] == i);
            }
        }
    }
    let mut cur: usize = 0;
    while cur < c.len()
        invariant
            unique_names(infos@),
            ints(c@).no_duplicates(),
            all_below(ints(c@), infos@.len() as int),
            forall|i: int| #[trigger] is_root(infos@, requested@, i) ==> ints(c@).contains(i),
            forall|k: int, i: int|
                0 <= k < cur && #[trigger] is_parent(infos@, ints(c@)[k], i) ==> ints(c@).contains(i),
            forall|k: int|
                #![trigger ints(c@)[k]]
                0 <= k < c@.len() ==> is_root(infos@, requested@, ints(c@)[k]) || exists|j: int|
                    0 <= j < k && #[trigger] is_parent(infos@, ints(c@)[j], ints(c@)[k]),
        decreases infos@.len() - cur,
    {
        proof { lemma_distinct_bounded(ints(c@), infos@.len() as int); }
        let t = c[cur];
        assert(ints(c@)[cur as int] == t as int);
        let ps = &infos[t].index.inherits;
        let mut p: usize = 0;
        while p < ps.len()
            invariant
                unique_names(infos@),
                cur < c@.len(),
                t < infos@.len(),
                ints(c@)[cur as int] == t as int,
                ps == infos@[t as int].index.inherits,
                p <= ps@.len(),
                ints(c@).no_duplicates(),
                all_below(ints(c@), infos@.len() as int),
                forall|i: int| #[trigger] is_root(infos@, requested@, i) ==> ints(c@).contains(i),
                forall|k: int, i: int|
                    0 <= k < cur && #[trigger] is_parent(infos@, ints(c@)[k], i) ==> ints(c@).contains(i),
                forall|pp: int, i: int|
                    0 <= pp < p && #[trigger] named(infos@, i, ps@[pp]@) ==> ints(c@).contains(i),
                forall|k: int|
                    #![trigger ints(c@)[k]]
                    0 <= k < c@.len() ==> is_root(infos@, requested@, ints(c@)[k]) || exists|j: int|
                        0 <= j < k && #[trigger] is_parent(infos@, ints(c@)[j], ints(c@)[k]),
            decreases ps@.len() - p,
        {
            let ghost before = ints(c@);
            match find_theme(infos, &ps[p]) {
                Some(i) => {
                    match position_of(&c, i) {
                        Some(k) => {
                        assert(ints(c@)[k as int] == i as int);
                    },
                        None => {
                            c.push(i);
                            assert(ints(c@) =~= before.push(i as int));
                            proof {
                                lemma_push_fresh(before, i as int, infos@.len() as int);
                                assert(is_parent(infos@, before[cur as int], i as int));
                                assert(ints(c@)[before.len() as int] == i as int);
                                assert forall|k: int|
                                    #![trigger ints(c@)[k]]
                                    0 <= k < c@.len() implies is_root(infos@, requested@, ints(c@)[k]) || exists|j: int|
                                        0 <= j < k && #[trigger] is_parent(infos@, ints(c@)[j], ints(c@)[k]) by {
                                    if k < before.len() {
                                        assert(ints(c@)[k] == before[k]);
                                        if !is_root(infos@, requested@, before[k]) {
                                            let j = choose|j: int| 0 <= j < k && #[trigger] is_parent(infos@, before[j], before[k]);
                                            assert(ints(c@)[j] == before[j]);
                                        }
                                    } else {
                                        assert(ints(c@)[cur as int] == before[cur as int]);
                                    }
                                }
                            }
                        },
                    }
                },
                None => {},
            }
            proof {
                assert forall|x: int| before.contains(x) implies ints(c@).contains(x) by {
                    let j = choose|j: int| 0 <= j < before.len() && before[j] == x;
                    assert(ints(c@)[j] == x);
                }
                assert forall|k: int| 0 <= k < before.len() implies ints(c@)[k] == before[k] by {}
            }
            p = p + 1;
        }
        proof {
            assert forall|k: int, i: int|
                0 <= k < cur + 1 && #[trigger] is_parent(infos@, ints(c@)[k], i) implies ints(c@).contains(i) by {
                if k == cur {
                    let pp = choose|pp: int|
                        0 <= pp < infos@[t as int].index.inherits@.len() && named(
                            infos@,
                            i,
                            #[trigger] infos@[t as int].index.inherits@[pp]@,
                        );
                }
            }
        }
        cur = cur + 1;
    }
    c
}

fn add_root(infos: &Vec<ThemeInfo>, c: &mut Vec<usize>, name: &String)
    requires
        unique_names(infos@),
        ints(old(c)@).no_duplicates(),
        all_below(ints(old(c)@), infos@.len() as int),
    ensures
        ints(final(c)@).no_duplicates(),
        all_below(ints(final(c)@), infos@.len() as int),
        old(c)@.len() <= final(c)@.len(),
        forall|k: int| 0 <= k < old(c)@.len() ==> final(c)@[k] == old(c)@[k],
        forall|k: int|
            old(c)@.len() <= k < final(c)@.len() ==> named(infos@, #[trigger] ints(final(c)@)[k], name@),
        forall|i: int| named(infos@, i, name@) ==> ints(final(c)@).contains(i),
{
    let ghost before = ints(c@);
    match find_theme(infos, name) {
        Some(i) => {
            match position_of(c, i) {
                Some(k) => {
                    assert(ints(c@)[k as int] == i as int);
                },
                None => {
                    c.push(i);
                    assert(ints(c@) =~= before.push(i as int));
                    proof { lemma_push_fresh(before, i as int, infos@.len() as int); }
                    assert(ints(c@)[before.len() as int] == i as int);
                },
            }
        },
        None => {},
    }
}

proof fn lemma_push_fresh(s: Seq<int>, x: int, m: int)
    requires
        s.no_duplicates(),
        all_below(s, m),
        !s.contains(x),
        0 <= x < m,
    ensures
        s.push(x).no_duplicates(),
        all_below(s.push(x), m),
{
    assert forall|i: int, j: int| 0 <= i < j < s.push(x).len() implies s.push(x)[i] != s.push(x)[j] by {
        if j == s.len() {
            assert(s[i] == s.push(x)[i]);
        }
    }
}

/// The internal names of a theme's ancestors, in order.
pub open spec fn ancestor_names(t: Theme) -> Seq<Seq<char>> {
    t.inherits_from@.map_values(|a: Arc<Theme>| a.info.internal_name@)
}

/// A theme's ancestor list names no theme twice and never the theme itself.
pub open spec fn acyclic_node(t: Theme) -> bool {
    &&& ancestor_names(t).no_duplicates()
    &&& !ancestor_names(t).contains(t.info.internal_name@)
}

/// A theme's ancestor list ends with the fallback theme.
pub open spec fn ends_with_fallback(t: Theme) -> bool {
    t.inherits_from@.len() > 0 && t.inherits_from@.last().info.internal_name@ == fallback_name()
}

/// The fallback theme is among the descriptors.
pub open spec fn has_fallback(infos: Seq<ThemeInfo>) -> bool {
    exists|i: int| named(infos, i, fallback_name())
}

/// Facts about the themes built so far, by position in the collection `cv`.
pub open spec fn built_ok(built: Seq<Option<Arc<Theme>>>, orig: Seq<ThemeInfo>, cv: Seq<int>) -> bool {
    forall|y: int|
        #![trigger built[y]]
        0 <= y < built.len() && built[y] is Some ==> built[y]->0.info == orig[cv[y]]
}

/// The facts that tie the collection `cv` to the descriptors.
pub open spec fn collection_wf(orig: Seq<ThemeInfo>, cv: Seq<int>) -> bool {
    &&& cv.no_duplicates()
    &&& all_below(cv, orig.len() as int)
    &&& unique_names(orig)
}

proof fn lemma_distinct_names(orig: Seq<ThemeInfo>, cv: Seq<int>, a: int, b: int)
    requires
        collection_wf(orig, cv),
        0 <= a < cv.len(),
        0 <= b < cv.len(),
        a != b,
    ensures
        orig[cv[a]].internal_name@ != orig[cv[b]].internal_name@,
{
    assert(0 <= cv[a] < orig.len());
    assert(0 <= cv[b] < orig.len());
}

/// The reference `a` is the theme built at position `y`, another than `x`.
pub open spec fn built_at(a: Arc<Theme>, built: Seq<Option<Arc<Theme>>>, x: int, y: int) -> bool {
    0 <= y < built.len() && y != x && built[y] is Some && a == built[y]->0
}

/// The reference `a` is a theme already built, at a position other than `x`.
pub open spec fn refers_to_built(a: Arc<Theme>, built: Seq<Option<Arc<Theme>>>, x: int) -> bool {
    exists|y: int| #[trigger] built_at(a, built, x, y)
}

/// Every ancestor of `t` is a theme already built, at a position other than `x`.
pub open spec fn refs_built(t: Theme, built: Seq<Option<Arc<Theme>>>, x: int) -> bool {
    forall|i: int| 0 <= i < t.inherits_from@.len() ==> #[trigger] refers_to_built(t.inherits_from@[i], built, x)
}

/// `a`, an ancestor reference of the theme built at `y`, is the theme built at `z`,
/// which was built before it.
pub open spec fn ranked_ref(built: Seq<Option<Arc<Theme>>>, rank: Seq<int>, y: int, a: Arc<Theme>, z: int) -> bool {
    built_at(a, built, y, z) && rank[z] < rank[y]
}

/// The `i`-th ancestor reference of the theme built at `y`.
pub open spec fn built_ancestor(built: Seq<Option<Arc<Theme>>>, y: int, i: int) -> Arc<Theme> {
    built[y]->0.inherits_from@[i]
}

/// Every ancestor reference of a built theme is a theme built before it.
pub open spec fn ranked(built: Seq<Option<Arc<Theme>>>, rank: Seq<int>) -> bool {
    forall|y: int, i: int|
        0 <= y < built.len() && built[y] is Some && 0 <= i < built[y]->0.inherits_from@.len() ==> exists|z: int|
            ranked_ref(built, rank, y, #[trigger] built_ancestor(built, y, i), z)
}

/// `a`, an ancestor reference of `r[k]`, is the node `r[m]`, of lower rank.
pub open spec fn result_ref(r: Seq<Arc<Theme>>, rank: Seq<int>, k: int, a: Arc<Theme>, m: int) -> bool {
    0 <= m < r.len() && m != k && a == r[m] && rank[m] < rank[k]
}

/// The `i`-th ancestor reference of node `k`.
pub open spec fn ancestor_ref(r: Seq<Arc<Theme>>, k: int, i: int) -> Arc<Theme> {
    r[k].inherits_from@[i]
}

/// Every ancestor reference of every node is another node of the result, of lower
/// rank: the references are shared nodes, and following them never comes back.
pub open spec fn result_ranked(r: Seq<Arc<Theme>>, rank: Seq<int>) -> bool {
    &&& rank.len() == r.len()
    &&& forall|k: int, i: int|
        0 <= k < r.len() && 0 <= i < r[k].inherits_from@.len() ==> exists|m: int|
            result_ref(r, rank, k, #[trigger] ancestor_ref(r, k, i), m)
}

/// No two nodes share an internal name.
pub open spec fn distinct_names(r: Seq<Arc<Theme>>) -> bool {
    forall|k: int, m: int|
        0 <= k < r.len() && 0 <= m < r.len() && k != m ==> (#[trigger] r[k]).info.internal_name@
            != (#[trigger] r[m]).info.internal_name@
}

/// Node `next` is one of the ancestors that node `cur` refers to.
pub open spec fn refers(r: Seq<Arc<Theme>>, cur: int, next: int) -> bool {
    exists|i: int| 0 <= i < r[cur].inherits_from@.len() && #[trigger] ancestor_ref(r, cur, i) == r[next]
}

/// Following ancestor references through the resolved nodes never leads back to where
/// it started: along any path of references the rank strictly falls, so the last node
/// differs from the first.
pub proof fn ancestors_never_return(r: Seq<Arc<Theme>>, rank: Seq<int>, path: Seq<int>)
    requires
        result_ranked(r, rank),
        distinct_names(r),
        path.len() >= 2,
        forall|j: int| 0 <= j < path.len() ==> 0 <= #[trigger] path[j] < r.len(),
        forall|j: int| 0 <= j < path.len() - 1 ==> refers(r, #[trigger] path[j], path[j + 1]),
    ensures
        rank[path.last()] < rank[path[0]],
        path.last() != path[0],
    decreases path.len(),
{
    let n = path.len();
    let cur = path[n - 2];
    let next = path[n - 1];
    assert(refers(r, path[n - 2], path[n - 2 + 1]));
    let i = choose|i: int| 0 <= i < r[cur].inherits_from@.len() && #[trigger] ancestor_ref(r, cur, i) == r[next];
    let m = choose|m: int| result_ref(r, rank, cur, ancestor_ref(r, cur, i), m);
    assert(r[m] == r[next]);
    if m != next {
        assert(r[m].info.internal_name@ != r[next].info.internal_name@);
    }
    if n > 2 {
        let prefix = path.drop_last();
        assert forall|j: int| 0 <= j < prefix.len() - 1 implies refers(r, #[trigger] prefix[j], prefix[j + 1]) by {
            assert(prefix[j] == path[j] && prefix[j + 1] == path[j + 1]);
        }
        ancestors_never_return(r, rank, prefix);
        assert(prefix.last() == cur);
    }
}

proof fn lemma_ranked_insert(
    built: Seq<Option<Arc<Theme>>>,
    rank: Seq<int>,
    x: int,
    a: Arc<Theme>,
    clock: int,
)
    requires
        ranked(built, rank),
        rank.len() == built.len(),
        0 <= x < built.len(),
        built[x] is None,
        forall|y: int| 0 <= y < built.len() && built[y] is Some ==> #[trigger] rank[y] < clock,
        refs_built(*a, built, x),
    ensures
        ranked(built.update(x, Some(a)), rank.update(x, clock)),
{
    let b2 = built.update(x, Some(a));
    let r2 = rank.update(x, clock);
    assert forall|y: int, i: int|
        0 <= y < b2.len() && b2[y] is Some && 0 <= i < b2[y]->0.inherits_from@.len() implies exists|z: int|
            ranked_ref(b2, r2, y, #[trigger] built_ancestor(b2, y, i), z) by {
        if y == x {
            assert(refers_to_built(a.inherits_from@[i], built, x));
            let z = choose|z: int| #[trigger] built_at(a.inherits_from@[i], built, x, z);
            assert(ranked_ref(b2, r2, y, built_ancestor(b2, y, i), z));
        } else {
            assert(built[y] == b2[y]);
            assert(built_ancestor(built, y, i) == built_ancestor(b2, y, i));
            let z = choose|z: int| ranked_ref(built, rank, y, #[trigger] built_ancestor(built, y, i), z);
            assert(ranked_ref(b2, r2, y, built_ancestor(b2, y, i), z));
        }
    }
    assert(ranked(b2, r2));
}

fn build_node(
    info: ThemeInfo,
    x: usize,
    xs: &Vec<usize>,
    built: &Vec<Option<Arc<Theme>>>,
    orig: Ghost<Seq<ThemeInfo>>,
    cv: Ghost<Seq<int>>,
    h: Option<usize>,
) -> (r: Theme)
    requires
        collection_wf(orig@, cv@),
        built@.len() == cv@.len(),
        x < built@.len(),
        info == orig@[cv@[x as int]],
        ints(xs@).no_duplicates(),
        all_below(ints(xs@), built@.len() as int),
        xs@.len() > 0,
        built_ok(built@, orig@, cv@),
        h matches Some(hh) ==> hh < built@.len() && named(orig@, cv@[hh as int], fallback_name()),
        h matches Some(hh) ==> (x != hh ==> built@[hh as int] is Some && ints(xs@).last() == hh as int),
    ensures
        r.info == info,
        acyclic_node(r),
        h matches Some(hh) ==> (x != hh ==> ends_with_fallback(r)),
        refs_built(r, built@, x as int),
{
    let ghost xv = ints(xs@);
    let ghost m = built@.len();
    let mut anc: Vec<Arc<Theme>> = Vec::new();
    let ghost mut anc_pos: Seq<int> = seq![];
    let mut q: usize = 0;
    while q < xs.len()
        invariant
            m == built@.len() == cv@.len(),
            x < m,
            xv == ints(xs@),
            xv.no_duplicates(),
            all_below(xv, m as int),
            built_ok(built@, orig@, cv@),
            q <= xs@.len(),
            anc@.len() == anc_pos.len(),
            anc_pos.no_duplicates(),
            forall|i: int|
                #![trigger anc_pos[i]]
                0 <= i < anc_pos.len() ==> 0 <= anc_pos[i] < m && anc_pos[i] != x && (*anc@[i]).info
                    == orig@[cv@[anc_pos[i]]] && xv.subrange(0, q as int).contains(anc_pos[i])
                    && built@[anc_pos[i]] is Some && anc@[i] == built@[anc_pos[i]]->0,
            q > 0 && xv[q - 1] != x as int && built@[xv[q - 1]] is Some ==> anc_pos.len() > 0
                && anc_pos.last() == xv[q - 1],
        decreases xs@.len() - q,
    {
        let y = xs[q];
        assert(xv[q as int] == y as int);
        let ghost before = anc_pos;
        proof { lemma_prefix_grows(xv, q as int); }
        if y != x && built[y].is_some() {
            let nd = built[y].as_ref().unwrap();
            anc.push(share(nd));
            proof {
                lemma_not_in_prefix(xv, q as int);
                assert(!before.contains(y as int)) by {
                    if before.contains(y as int) {
                        let i = choose|i: int| 0 <= i < before.len() && before[i] == y as int;
                        assert(xv.subrange(0, q as int).contains(before[i]));
                    }
                }
                anc_pos = before.push(y as int);
                lemma_push_fresh(before, y as int, m as int);
                assert(xv.subrange(0, q + 1).contains(y as int)) by {
                    assert(xv.subrange(0, q + 1)[q as int] == y as int);
                }
                assert forall|i: int| #![trigger anc_pos[i]] 0 <= i < before.len() implies anc_pos[i] == before[i] by {}
            }
        }
        q = q + 1;
    }
    let node = Theme { info, inherits_from: anc };
    proof {
        assert forall|i: int|
            #![trigger node.inherits_from@[i]]
            0 <= i < node.inherits_from@.len() implies refers_to_built(node.inherits_from@[i], built@, x as int) by {
            let y = anc_pos[i];
            assert(0 <= y < built@.len() && y != x && built@[y] is Some && node.inherits_from@[i]
                == built@[y]->0);
            assert(built_at(node.inherits_from@[i], built@, x as int, y));
        }
        let names = ancestor_names(node);
        assert forall|i: int| 0 <= i < names.len() implies names[i] == orig@[cv@[anc_pos[i]]].internal_name@ by {
            assert((*node.inherits_from@[i]).info == orig@[cv@[anc_pos[i]]]);
        }
        assert forall|a: int, b: int| 0 <= a < b < names.len() implies names[a] != names[b] by {
            assert(anc_pos[a] != anc_pos[b]);
            lemma_distinct_names(orig@, cv@, anc_pos[a], anc_pos[b]);
        }
        assert(!names.contains(node.info.internal_name@)) by {
            if names.contains(node.info.internal_name@) {
                let i = choose|i: int| 0 <= i < names.len() && names[i] == node.info.internal_name@;
                assert(anc_pos[i] != x);
                lemma_distinct_names(orig@, cv@, anc_pos[i], x as int);
            }
        }
        if let Some(hh) = h {
            if x != hh {
                assert(xv.last() == hh as int);
                assert(xv[xs@.len() - 1] == hh as int);
                assert(anc_pos.last() == hh as int);
            }
        }
    }
    node
}

proof fn lemma_prefix_grows(s: Seq<int>, q: int)
    requires
        0 <= q < s.len(),
    ensures
        forall|v: int| s.subrange(0, q).contains(v) ==> #[trigger] s.subrange(0, q + 1).contains(v),
{
    assert forall|v: int| s.subrange(0, q).contains(v) implies #[trigger] s.subrange(0, q + 1).contains(v) by {
        let i = choose|i: int| 0 <= i < q && s.subrange(0, q)[i] == v;
        assert(s.subrange(0, q + 1)[i] == v);
    }
}

proof fn lemma_not_in_prefix(s: Seq<int>, q: int)
    requires
        s.no_duplicates(),
        0 <= q < s.len(),
    ensures
        !s.subrange(0, q).contains(s[q]),
{
    if s.subrange(0, q).contains(s[q]) {
        let i = choose|i: int| 0 <= i < q && s.subrange(0, q)[i] == s[q];
        assert(s[i] == s[q]);
    }
}

/// Links the descriptors reachable from `requested` (and the fallback theme) into
/// themes, one per descriptor. Each theme's ancestor list is its ancestor chain
/// without itself, each ancestor a shared reference to the theme built for it; it
/// names no theme twice, never the theme itself, and, when the fallback theme is among
/// the descriptors, ends with it for every other theme.
pub fn resolve_themes(infos: Vec<ThemeInfo>, requested: &Vec<String>) -> (r: Vec<Arc<Theme>>)
    requires
        unique_names(infos@),
    ensures
        exists|c: Seq<int>|
            collection_ok(infos@, requested@, c) && r@.len() == c.len() && forall|k: int|
                0 <= k < c.len() ==> (#[trigger] r@[k]).info == infos@[c[k]],
        forall|k: int| 0 <= k < r@.len() ==> acyclic_node(*#[trigger] r@[k]),
        has_fallback(infos@) ==> forall|k: int|
            0 <= k < r@.len() && (#[trigger] r@[k]).info.internal_name@ != fallback_name()
                ==> ends_with_fallback(*r@[k]),
        exists|rank: Seq<int>| result_ranked(r@, rank),
        distinct_names(r@),
{
    let ghost orig = infos@;
    let c = collect_themes(&infos, requested);
    let ghost cv = ints(c@);
    let m = c.len();
    proof { lemma_distinct_bounded(cv, orig.len() as int); }
    // parents of every collected theme, by position in `c`
    let mut parents: Vec<Vec<usize>> = Vec::new();
    let mut k: usize = 0;
    while k < m
        invariant
            m == c@.len(),
            cv == ints(c@),
            collection_ok(orig, requested@, cv),
            orig == infos@,
            k <= m,
            parents@.len() == k,
            forall|t: int| 0 <= t < k ==> all_below(#[trigger] ints(parents@[t]@), m as int),
        decreases m - k,
    {
        assert(cv[k as int] == c@[k as int] as int);
        let ps = &infos[c[k]].index.inherits;
        let mut pos: Vec<usize> = Vec::new();
        let mut p: usize = 0;
        while p < ps.len()
            invariant
                m == c@.len(),
                p <= ps@.len(),
                all_below(ints(pos@), m as int),
            decreases ps@.len() - p,
        {
            match find_theme(&infos, &ps[p]) {
                Some(i) => match position_of(&c, i) {
                    Some(at) => {
                        let ghost before = ints(pos@);
                        pos.push(at);
                        assert(ints(pos@) =~= before.push(at as int));
                    },
                    None => {},
                },
                None => {},
            }
            p = p + 1;
        }
        parents.push(pos);
        k = k + 1;
    }
    assert(parents_view(parents@).len() == m);
    assert(parents_wf(parents_view(parents@))) by {
        assert forall|t: int| 0 <= t < m implies all_below(#[trigger] parents_view(parents@)[t], m as int) by {
            assert(parents_view(parents@)[t] == ints(parents@[t]@));
        }
    }
    let fallback = "hicolor".to_owned();
    proof { reveal_strlit("hicolor"); assert(fallback@ =~= fallback_name()); }
    let h = match find_theme(&infos, &fallback) {
        Some(i) => position_of(&c, i),
        None => None,
    };
    proof {
        if has_fallback(orig) {
            let i = choose|i: int| named(orig, i, fallback_name());
            assert(is_root(orig, requested@, i));
        }
    }
    assert(h matches Some(x) ==> named(orig, cv[x as int], fallback_name()));
    assert(has_fallback(orig) ==> h is Some);
    // the ancestor chain of every collected theme
    let mut chains: Vec<Vec<usize>> = Vec::new();
    let mut k: usize = 0;
    while k < m
        invariant
            m == parents@.len(),
            parents_wf(parents_view(parents@)),
            h matches Some(x) ==> x < m,
            k <= m,
            chains@.len() == k,
            forall|t: int|
                #![trigger chains@[t]]
                0 <= t < k ==> ints(chains@[t]@).no_duplicates() && all_below(ints(chains@[t]@), m as int)
                    && ints(chains@[t]@).contains(t) && (h matches Some(x) ==> ints(chains@[t]@).last() == x as int),
        decreases m - k,
    {
        let ch = theme_chain(&parents, k, h);
        proof {
            lemma_chain_of(
                parents_view(parents@),
                k as int,
                match h {
                    Some(x) => Some(x as int),
                    None => None,
                },
            );
        }
        chains.push(ch);
        k = k + 1;
    }
    // the descriptors, each to be moved into its theme
    let mut slots: Vec<Option<ThemeInfo>> = Vec::new();
    let mut infos = infos;
    let n = infos.len();
    assert(infos@ =~= orig.subrange(0, n as int));
    while infos.len() > 0
        invariant
            slots@.len() + infos@.len() == n,
            orig.len() == n,
            forall|j: int| 0 <= j < slots@.len() ==> #[trigger] slots@[j] == Some(orig[j]),
            infos@ == orig.subrange(slots@.len() as int, n as int),
        decreases infos@.len(),
    {
        let ghost before = slots@;
        let x = infos.remove(0);
        slots.push(Some(x));
        assert(slots@ == before.push(Some(x)));
        assert(infos@ =~= orig.subrange(slots@.len() as int, n as int));
    }
    let mut built: Vec<Option<Arc<Theme>>> = Vec::new();
    let mut k: usize = 0;
    while k < m
        invariant
            k <= m,
            built@.len() == k,
            forall|t: int| 0 <= t < k ==> (#[trigger] built@[t]) is None,
        decreases m - k,
    {
        built.push(None);
        k = k + 1;
    }
    let ghost mut rank: Seq<int> = Seq::new(m as nat, |y: int| 0int);
    let ghost mut clock: int = 0;
    assert(ranked(built@, rank));
    let mut ci: usize = 0;
    while ci < m
        invariant
            m == chains@.len() == built@.len() == cv.len() == c@.len(),
            cv == ints(c@),
            collection_ok(orig, requested@, cv),
            unique_names(orig),
            slots@.len() == orig.len(),
            h matches Some(x) ==> x < m && named(orig, cv[x as int], fallback_name()),
            ci <= m,
            forall|t: int|
                #![trigger chains@[t]]
                0 <= t < m ==> ints(chains@[t]@).no_duplicates() && all_below(ints(chains@[t]@), m as int)
                    && ints(chains@[t]@).contains(t) && (h matches Some(x) ==> ints(chains@[t]@).last() == x as int),
            forall|x: int| 0 <= x < m && (#[trigger] built@[x]) is None ==> slots@[cv[x]] == Some(orig[cv[x]]),
            forall|x: int|
                #![trigger built@[x]]
                0 <= x < m && built@[x] is Some ==> built@[x]->0.info == orig[cv[x]] && acyclic_node(*built@[x]->0)
                    && (h matches Some(hh) ==> (x != hh ==> ends_with_fallback(*built@[x]->0))),
            forall|t: int| 0 <= t < ci ==> (#[trigger] built@[t]) is Some,
            ci > 0 ==> (h matches Some(hh) ==> built@[hh as int] is Some),
            rank.len() == m,
            ranked(built@, rank),
            forall|y: int| 0 <= y < m && built@[y] is Some ==> #[trigger] rank[y] < clock,
        decreases m - ci,
    {
        let chain = &chains[ci];
        let mut j: usize = chain.len();
        while j > 0
            invariant
                m == chains@.len() == built@.len() == cv.len() == c@.len(),
                cv == ints(c@),
                collection_ok(orig, requested@, cv),
                unique_names(orig),
                slots@.len() == orig.len(),
                h matches Some(x) ==> x < m && named(orig, cv[x as int], fallback_name()),
                ci < m,
                chain == chains@[ci as int],
                j <= chain@.len(),
                forall|t: int|
                    #![trigger chains@[t]]
                    0 <= t < m ==> ints(chains@[t]@).no_duplicates() && all_below(ints(chains@[t]@), m as int)
                        && ints(chains@[t]@).contains(t) && (h matches Some(x) ==> ints(chains@[t]@).last() == x as int),
                forall|x: int| 0 <= x < m && (#[trigger] built@[x]) is None ==> slots@[cv[x]] == Some(orig[cv[x]]),
                forall|x: int|
                    #![trigger built@[x]]
                    0 <= x < m && built@[x] is Some ==> built@[x]->0.info == orig[cv[x]] && acyclic_node(*built@[x]->0)
                        && (h matches Some(hh) ==> (x != hh ==> ends_with_fallback(*built@[x]->0))),
                forall|t: int| 0 <= t < ci ==> (#[trigger] built@[t]) is Some,
                forall|q: int| j <= q < chain@.len() ==> (#[trigger] built@[chain@[q] as int]) is Some,
                (ci > 0 || j < chain@.len()) ==> (h matches Some(hh) ==> built@[hh as int] is Some),
                rank.len() == m,
                ranked(built@, rank),
                forall|y: int| 0 <= y < m && built@[y] is Some ==> #[trigger] rank[y] < clock,
            decreases j,
        {
            let x = chain[j - 1];
            let ghost bb = built@;
            assert(ints(chain@)[j - 1] == x as int);
            assert(x < m);
            if built[x].is_none() {
                assert(cv[x as int] == c@[x as int] as int);
                let mut slot: Option<ThemeInfo> = None;
                std::mem::swap(&mut slot, &mut slots[c[x]]);
                assert(slot == Some(orig[cv[x as int]]));
                if let Some(info) = slot {
                    let node = build_node(info, x, &chains[x], &built, Ghost(orig), Ghost(cv), h);
                    let a = Arc::new(node);
                    proof {
                        lemma_ranked_insert(built@, rank, x as int, a, clock);
                        rank = rank.update(x as int, clock);
                        clock = clock + 1;
                    }
                    built[x] = Some(a);
                    assert(built@ == bb.update(x as int, Some(a)));
                }
            }
            assert(built@[x as int] is Some);
            proof {
                assert forall|qq: int| j - 1 <= qq < chain@.len() implies (#[trigger] built@[chain@[qq] as int]) is Some by {
                    assert(ints(chain@)[qq] == chain@[qq] as int);
                    if qq >= j {
                        assert(bb[chain@[qq] as int] is Some);
                    }
                }
            }
            j = j - 1;
        }
        proof {
            let t = ci as int;
            let q = choose|q: int| 0 <= q < chain@.len() && ints(chain@)[q] == t;
            assert(chain@[q] as int == t);
        }
        ci = ci + 1;
    }
    let mut out: Vec<Arc<Theme>> = Vec::new();
    let mut k: usize = 0;
    while k < m
        invariant
            m == built@.len() == cv.len(),
            k <= m,
            out@.len() == k,
            forall|t: int| 0 <= t < m ==> (#[trigger] built@[t]) is Some,
            forall|t: int| 0 <= t < k ==> #[trigger] out@[t] == built@[t]->0,
            rank.len() == m,
            ranked(built@, rank),
        decreases m - k,
    {
        match &built[k] {
            Some(nd) => out.push(share(nd)),
            None => {},
        }
        k = k + 1;
    }
    proof {
        assert forall|t: int| 0 <= t < out@.len() implies (#[trigger] out@[t]).info == orig[cv[t]] by {
            assert(built@[t] is Some);
        }
        assert forall|k: int, i: int|
            0 <= k < out@.len() && 0 <= i < out@[k].inherits_from@.len() implies exists|mm: int|
                result_ref(out@, rank, k, #[trigger] ancestor_ref(out@, k, i), mm) by {
            assert(built@[k] is Some);
            assert(out@[k] == built@[k]->0);
            assert(built_ancestor(built@, k, i) == ancestor_ref(out@, k, i));
            let z = choose|z: int| ranked_ref(built@, rank, k, #[trigger] built_ancestor(built@, k, i), z);
            assert(out@[z] == built@[z]->0);
            assert(result_ref(out@, rank, k, ancestor_ref(out@, k, i), z));
        }
        assert(rank.len() == out@.len());
        assert(result_ranked(out@, rank));
        assert forall|k: int, mm: int|
            0 <= k < out@.len() && 0 <= mm < out@.len() && k != mm implies (#[trigger] out@[k]).info.internal_name@
                != (#[trigger] out@[mm]).info.internal_name@ by {
            assert(built@[k] is Some && built@[mm] is Some);
            lemma_distinct_names(orig, cv, k, mm);
        }
        if has_fallback(orig) {
            assert forall|t: int|
                0 <= t < out@.len() && (#[trigger] out@[t]).info.internal_name@ != fallback_name()
                implies ends_with_fallback(*out@[t]) by {
                assert(built@[t] is Some);
                let hh = h->0;
                assert(t != hh);
            }
        }
    }
    out
}

} // verus!
