//! Line diffs: the Myers shortest-edit-script algorithm and unified-diff output.
use vstd::prelude::*;
use crate::objects::DiffOp;
use crate::text::{decimal, push_decimal, push_str, str_eq, string_of};

verus! {

// ---------------------------------------------------------------------------
// Edit scripts
// ---------------------------------------------------------------------------

/// The lines an operation takes from the old text.
pub open spec fn op_old(op: DiffOp) -> Seq<Seq<char>> {
    match op {
        DiffOp::Keep(s) => seq![s@],
        DiffOp::Delete(s) => seq![s@],
        DiffOp::Insert(_) => seq![],
    }
}

/// The lines an operation contributes to the new text.
pub open spec fn op_new(op: DiffOp) -> Seq<Seq<char>> {
    match op {
        DiffOp::Keep(s) => seq![s@],
        DiffOp::Delete(_) => seq![],
        DiffOp::Insert(s) => seq![s@],
    }
}

/// Whether an operation is an edit (a deletion or an insertion).
pub open spec fn op_is_edit(op: DiffOp) -> bool {
    !(op is Keep)
}

/// The old text that a script walks through.
pub open spec fn script_old(ops: Seq<DiffOp>) -> Seq<Seq<char>>
    decreases ops.len(),
{
    if ops.len() == 0 {
        seq![]
    } else {
        script_old(ops.drop_last()) + op_old(ops.last())
    }
}

/// The new text that a script produces.
pub open spec fn script_new(ops: Seq<DiffOp>) -> Seq<Seq<char>>
    decreases ops.len(),
{
    if ops.len() == 0 {
        seq![]
    } else {
        script_new(ops.drop_last()) + op_new(ops.last())
    }
}

/// The number of deletions and insertions in a script.
pub open spec fn script_edits(ops: Seq<DiffOp>) -> nat
    decreases ops.len(),
{
    if ops.len() == 0 {
        0
    } else {
        script_edits(ops.drop_last()) + if op_is_edit(ops.last()) { 1nat } else { 0nat }
    }
}

/// `ops` turns the lines `old` into the lines `new`: keeping a line keeps it in both.
pub open spec fn is_edit_script(ops: Seq<DiffOp>, old: Seq<Seq<char>>, new: Seq<Seq<char>>) -> bool {
    script_old(ops) == old && script_new(ops) == new
}

/// `ops` is an edit script from `old` to `new` with as few edits as any other.
pub open spec fn is_shortest_edit_script(
    ops: Seq<DiffOp>,
    old: Seq<Seq<char>>,
    new: Seq<Seq<char>>,
) -> bool {
    &&& is_edit_script(ops, old, new)
    &&& forall|other: Seq<DiffOp>|
        #[trigger] is_edit_script(other, old, new) ==> script_edits(ops) <= script_edits(other)
}

/// No insertion comes right before a deletion: at each change point the
/// deleted lines come first.
pub open spec fn deletes_first(ops: Seq<DiffOp>) -> bool {
    forall|i: int| 0 <= i < ops.len() - 1 ==> !(#[trigger] ops[i] is Insert && ops[i + 1] is Delete)
}

/// The script `myers_diff` produces for `old` and `new` is one of these: a
/// shortest edit script whose deletions come before its insertions at each
/// change point.
pub open spec fn is_myers_script(ops: Seq<DiffOp>, old: Seq<Seq<char>>, new: Seq<Seq<char>>) -> bool {
    is_shortest_edit_script(ops, old, new) && deletes_first(ops)
}

/// The same, on a script read back to front.
spec fn deletes_first_rev(ops: Seq<DiffOp>) -> bool {
    forall|i: int| 0 <= i < ops.len() - 1 ==> !(#[trigger] ops[i] is Delete && ops[i + 1] is Insert)
}

/// The walk back has just taken a deletion that leaves it at `(x, y)` in
/// round `dd`: `x` is the row's furthest point on its diagonal, and the rule
/// that chose that deletion held.
spec fn after_delete(rows: Seq<Seq<isize>>, off: int, tl: int, dd: int, x: int, y: int) -> bool {
    let kn = x - y;
    &&& dd < tl
    &&& x == vk(rows[dd], off, kn)
    &&& !(kn + 1 == -dd || (kn + 1 != dd && vk(rows[dd], off, kn) < vk(rows[dd], off, kn + 2)))
}

/// One round of the walk back, spelled out: what it pushes continues the
/// operations pushed so far towards the whole walk.
proof fn lemma_walk_back_round(
    a: Seq<Seq<char>>,
    b: Seq<Seq<char>>,
    rows: Seq<Seq<int>>,
    off: int,
    dd: nat,
    x0: int,
    y0: int,
    prev_k: int,
    prev_x: int,
    x1: int,
    y1: int,
    before: Seq<(char, Seq<char>)>,
    total: Seq<(char, Seq<char>)>,
)
    requires
        dd > 0,
        before + walk_back(a, b, rows, off, dd, x0, y0) == total,
        prev_k == (if x0 - y0 == -(dd - 1) || (x0 - y0 != dd - 1 && rows[dd - 1][x0 - y0 - 1 + off]
            < rows[dd - 1][x0 - y0 + 1 + off]) {
            x0 - y0 + 1
        } else {
            x0 - y0 - 1
        }),
        prev_x == rows[dd - 1][prev_k + off],
        x1 <= x0,
        x0 - x1 == y0 - y1,
        x1 < x0 ==> x1 >= prev_x && y1 >= prev_y_of(prev_x, prev_k),
        x1 == prev_x || y1 == prev_y_of(prev_x, prev_k) || x0 <= prev_x || y0 <= prev_y_of(prev_x, prev_k),
        x1 < x0 ==> x0 > prev_x && y0 > prev_y_of(prev_x, prev_k),
    ensures
        ({
            let d = dd - 1;
            let keeps = Seq::new((x0 - x1) as nat, |i: int| (' ', a[x0 - 1 - i]));
            let prev_y = prev_y_of(prev_x, prev_k);
            &&& d > 0 && x1 == prev_x ==> before + keeps + seq![('+', b[y1 - 1])] + walk_back(
                a,
                b,
                rows,
                off,
                d as nat,
                x1,
                y1 - 1,
            ) == total
            &&& d > 0 && x1 != prev_x && y1 == prev_y ==> before + keeps + seq![('-', a[x1 - 1])] + walk_back(
                a,
                b,
                rows,
                off,
                d as nat,
                x1 - 1,
                y1,
            ) == total
            &&& !(d > 0 && (x1 == prev_x || y1 == prev_y)) ==> before + keeps + walk_back(
                a,
                b,
                rows,
                off,
                d as nat,
                x1,
                y1,
            ) == total
        }),
{
    reveal(walk_back);
    let d = dd - 1;
    let prev_y = prev_y_of(prev_x, prev_k);
    let t = if x0 > prev_x && y0 > prev_y {
        if x0 - prev_x < y0 - prev_y {
            x0 - prev_x
        } else {
            y0 - prev_y
        }
    } else {
        0
    };
    assert(t == x0 - x1);
    let keeps = Seq::new((x0 - x1) as nat, |i: int| (' ', a[x0 - 1 - i]));
    if d > 0 && x1 == prev_x {
        let w = walk_back(a, b, rows, off, d as nat, x1, y1 - 1);
        assert(before + keeps + seq![('+', b[y1 - 1])] + w =~= before + (keeps + seq![('+', b[y1 - 1])] + w));
    } else if d > 0 && y1 == prev_y {
        let w = walk_back(a, b, rows, off, d as nat, x1 - 1, y1);
        assert(before + keeps + seq![('-', a[x1 - 1])] + w =~= before + (keeps + seq![('-', a[x1 - 1])] + w));
    } else {
        let w = walk_back(a, b, rows, off, d as nat, x1, y1);
        assert(before + keeps + w =~= before + (keeps + w));
    }
}

proof fn lemma_views_push(r0: Seq<DiffOp>, op: DiffOp)
    ensures
        op_views(r0.push(op)) == op_views(r0).push(op_view(op)),
{
    assert(op_views(r0.push(op)) =~= op_views(r0).push(op_view(op)));
}

proof fn lemma_walk_back_done(a: Seq<Seq<char>>, b: Seq<Seq<char>>, rows: Seq<Seq<int>>, off: int, x: int, y: int)
    ensures
        walk_back(a, b, rows, off, 0, x, y) == Seq::<(char, Seq<char>)>::empty(),
{
    reveal(walk_back);
}

pub open spec fn prev_y_of(prev_x: int, prev_k: int) -> int {
    prev_x - prev_k
}

proof fn lemma_push_op_order(r0: Seq<DiffOp>, op: DiffOp)
    requires
        deletes_first_rev(r0),
        !(r0.len() > 0 && r0.last() is Delete && op is Insert),
    ensures
        deletes_first_rev(r0.push(op)),
{
    let s = r0.push(op);
    assert forall|i: int| 0 <= i < s.len() - 1 implies !(#[trigger] s[i] is Delete && s[i + 1] is Insert) by {
        if i + 1 < r0.len() {
            assert(s[i] == r0[i]);
            assert(s[i + 1] == r0[i + 1]);
        } else {
            assert(s[i] == r0.last());
            assert(s[i + 1] == op);
        }
    }
}

/// Where the walk back took an insertion into diagonal `k` of round `d`
/// without a snake after it, the row after round `d` lies further along
/// diagonal `k + 2` than along `k`: so the step after that insertion, in
/// round `d + 1`, was not a deletion from diagonal `k`.
proof fn lemma_insert_not_before_delete(
    a: Seq<Seq<char>>,
    b: Seq<Seq<char>>,
    rows: Seq<Seq<isize>>,
    off: int,
    d: int,
    k: int,
)
    requires
        d > 0,
        diag_ok(d, k),
        k == -d || (k != d && vk(rows[d], off, k - 1) < vk(rows[d], off, k + 1)),
        vk(rows[d + 1], off, k) == vk(rows[d], off, k + 1),
        diag_ok(d, k + 2) ==> facts_at(a, b, rows, off, d, k + 2),
    ensures
        k + 1 != d + 1,
        vk(rows[d + 1], off, k) < vk(rows[d + 1], off, k + 2),
{
    assert(k != d);
    assert(diag_ok(d, k + 2));
    let p = rows[d];
    let s = start_x(p, off, d, k + 2);
    assert(s >= vk(p, off, k + 1) + 1);
}

proof fn lemma_deletes_first_reverse(ops: Seq<DiffOp>)
    requires
        deletes_first_rev(ops),
    ensures
        deletes_first(ops.reverse()),
{
    let r = ops.reverse();
    assert forall|i: int| 0 <= i < r.len() - 1 implies !(#[trigger] r[i] is Insert && r[i + 1] is Delete) by {
        let j = ops.len() - 2 - i;
        assert(r[i] == ops[ops.len() - 1 - i]);
        assert(r[i + 1] == ops[j]);
        assert(ops[j + 1] == r[i]);
    }
}

/// The characters of each line.
pub open spec fn lines_view(lines: Seq<&str>) -> Seq<Seq<char>> {
    lines.map_values(|l: &str| l@)
}

proof fn lemma_script_concat(s1: Seq<DiffOp>, s2: Seq<DiffOp>)
    ensures
        script_old(s1 + s2) == script_old(s1) + script_old(s2),
        script_new(s1 + s2) == script_new(s1) + script_new(s2),
        script_edits(s1 + s2) == script_edits(s1) + script_edits(s2),
    decreases s2.len(),
{
    if s2.len() == 0 {
        assert(s1 + s2 =~= s1);
        assert(script_old(s2) =~= seq![]);
        assert(script_new(s2) =~= seq![]);
        assert(script_old(s1) + script_old(s2) =~= script_old(s1));
        assert(script_new(s1) + script_new(s2) =~= script_new(s1));
    } else {
        lemma_script_concat(s1, s2.drop_last());
        assert((s1 + s2).drop_last() =~= s1 + s2.drop_last());
        assert((s1 + s2).last() == s2.last());
        assert(script_old(s1) + script_old(s2) =~= script_old(s1) + script_old(s2.drop_last())
            + op_old(s2.last()));
        assert(script_new(s1) + script_new(s2) =~= script_new(s1) + script_new(s2.drop_last())
            + op_new(s2.last()));
    }
}

proof fn lemma_script_single(op: DiffOp)
    ensures
        script_old(seq![op]) == op_old(op),
        script_new(seq![op]) == op_new(op),
        script_edits(seq![op]) == if op_is_edit(op) { 1nat } else { 0nat },
{
    let s = seq![op];
    assert(s.drop_last() =~= Seq::<DiffOp>::empty());
    assert(script_edits(s.drop_last()) == 0);
    assert(s.last() == op);
    assert(script_old(s.drop_last()) + op_old(op) =~= op_old(op));
    assert(script_new(s.drop_last()) + op_new(op) =~= op_new(op));
}

// ---------------------------------------------------------------------------
// Paths through the edit graph (used only in proofs)
// ---------------------------------------------------------------------------

/// A move in the edit graph: right (delete), down (insert) or diagonal (keep).
pub enum Move {
    Right,
    Down,
    Diag,
}

pub open spec fn path_end(p: Seq<Move>) -> (int, int)
    decreases p.len(),
{
    if p.len() == 0 {
        (0, 0)
    } else {
        let e = path_end(p.drop_last());
        match p.last() {
            Move::Right => (e.0 + 1, e.1),
            Move::Down => (e.0, e.1 + 1),
            Move::Diag => (e.0 + 1, e.1 + 1),
        }
    }
}

pub open spec fn path_cost(p: Seq<Move>) -> int
    decreases p.len(),
{
    if p.len() == 0 {
        0
    } else {
        path_cost(p.drop_last()) + if p.last() is Diag { 0int } else { 1int }
    }
}

/// A diagonal step from `(x, y)` is possible: both lines exist and are equal.
pub open spec fn snake_step(a: Seq<Seq<char>>, b: Seq<Seq<char>>, x: int, y: int) -> bool {
    0 <= x < a.len() && 0 <= y < b.len() && a[x] == b[y]
}

pub open spec fn on_diag(a: Seq<Seq<char>>, b: Seq<Seq<char>>, i: int, k: int) -> bool {
    snake_step(a, b, i, i - k)
}

pub open spec fn path_valid(a: Seq<Seq<char>>, b: Seq<Seq<char>>, p: Seq<Move>) -> bool
    decreases p.len(),
{
    if p.len() == 0 {
        true
    } else {
        let e = path_end(p.drop_last());
        path_valid(a, b, p.drop_last()) && (p.last() is Diag ==> snake_step(a, b, e.0, e.1))
    }
}

proof fn lemma_path_diag(p: Seq<Move>)
    ensures
        path_end(p).0 >= 0,
        path_end(p).1 >= 0,
        path_cost(p) >= 0,
        -path_cost(p) <= path_end(p).0 - path_end(p).1 <= path_cost(p),
        (path_end(p).0 - path_end(p).1 + path_cost(p)) % 2 == 0,
    decreases p.len(),
{
    if p.len() > 0 {
        lemma_path_diag(p.drop_last());
    }
}

pub open spec fn min_int(a: int, b: int) -> int {
    if a <= b {
        a
    } else {
        b
    }
}

/// Any valid path can be clipped to the grid: the clipped path ends at the
/// endpoint pulled back inside the grid and saves one edit per step outside.
proof fn lemma_clip(a: Seq<Seq<char>>, b: Seq<Seq<char>>, p: Seq<Move>) -> (q: Seq<Move>)
    requires
        path_valid(a, b, p),
    ensures
        path_valid(a, b, q),
        path_end(q) == (min_int(path_end(p).0, a.len() as int), min_int(path_end(p).1, b.len() as int)),
        path_cost(q) == path_cost(p) - (path_end(p).0 - min_int(path_end(p).0, a.len() as int)) - (
        path_end(p).1 - min_int(path_end(p).1, b.len() as int)),
    decreases p.len(),
{
    lemma_path_diag(p);
    if p.len() == 0 {
        p
    } else {
        let pre = p.drop_last();
        let e = path_end(pre);
        lemma_path_diag(pre);
        match p.last() {
            Move::Diag => p,
            Move::Right => {
                let q0 = lemma_clip(a, b, pre);
                if e.0 >= a.len() {
                    q0
                } else {
                    let q = q0.push(Move::Right);
                    assert(q.drop_last() =~= q0);
                    q
                }
            },
            Move::Down => {
                let q0 = lemma_clip(a, b, pre);
                if e.1 >= b.len() {
                    q0
                } else {
                    let q = q0.push(Move::Down);
                    assert(q.drop_last() =~= q0);
                    q
                }
            },
        }
    }
}

// ---------------------------------------------------------------------------
// Facts about the furthest-reaching arrays kept by the search
// ---------------------------------------------------------------------------

pub open spec fn vk(row: Seq<isize>, off: int, k: int) -> int {
    row[k + off] as int
}

/// Where the search starts on diagonal `k` in round `d`, given the previous round's row.
pub open spec fn start_x(p: Seq<isize>, off: int, d: int, k: int) -> int {
    if k == -d || (k != d && vk(p, off, k - 1) < vk(p, off, k + 1)) {
        vk(p, off, k + 1)
    } else {
        vk(p, off, k - 1) + 1
    }
}

pub open spec fn diag_ok(d: int, k: int) -> bool {
    -d <= k <= d && (k + d) % 2 == 0
}

/// From the start point of round `d` on diagonal `k`, every step up to `x` is diagonal.
pub open spec fn snake_facts(
    a: Seq<Seq<char>>,
    b: Seq<Seq<char>>,
    p: Seq<isize>,
    off: int,
    d: int,
    k: int,
    x: int,
) -> bool {
    let s = start_x(p, off, d, k);
    &&& 0 <= s <= x
    &&& s - k >= 0
    &&& forall|i: int| s <= i < x ==> #[trigger] on_diag(a, b, i, k)
}

/// Round `d` reached `w[k]` on diagonal `k` from row `p`, and could go no further.
pub open spec fn round_facts(
    a: Seq<Seq<char>>,
    b: Seq<Seq<char>>,
    p: Seq<isize>,
    w: Seq<isize>,
    off: int,
    d: int,
    k: int,
) -> bool {
    &&& snake_facts(a, b, p, off, d, k, vk(w, off, k))
    &&& !snake_step(a, b, vk(w, off, k), vk(w, off, k) - k)
}

pub open spec fn facts_at(
    a: Seq<Seq<char>>,
    b: Seq<Seq<char>>,
    rows: Seq<Seq<isize>>,
    off: int,
    r: int,
    k: int,
) -> bool {
    round_facts(a, b, rows[r], rows[r + 1], off, r, k)
}

/// Every endpoint of a valid path inside the grid with cost `c` is at most as far
/// along its diagonal as the row recorded after round `c`.
proof fn lemma_furthest(
    a: Seq<Seq<char>>,
    b: Seq<Seq<char>>,
    rows: Seq<Seq<isize>>,
    off: int,
    done: int,
    p: Seq<Move>,
)
    requires
        done + 1 <= rows.len(),
        forall|r: int, k: int| 0 <= r < done && diag_ok(r, k) ==> #[trigger] facts_at(a, b, rows, off, r, k),
        path_valid(a, b, p),
        path_cost(p) < done,
        path_end(p).0 <= a.len(),
        path_end(p).1 <= b.len(),
    ensures
        vk(rows[path_cost(p) + 1], off, path_end(p).0 - path_end(p).1) >= path_end(p).0,
    decreases p.len(),
{
    lemma_path_diag(p);
    let c = path_cost(p);
    let (x, y) = path_end(p);
    let k = x - y;
    if p.len() == 0 {
        assert(facts_at(a, b, rows, off, 0, 0));
    } else {
        let q = p.drop_last();
        lemma_path_diag(q);
        lemma_furthest(a, b, rows, off, done, q);
        assert(facts_at(a, b, rows, off, c, k));
        match p.last() {
            Move::Diag => {},
            Move::Right => {},
            Move::Down => {},
        }
    }
}

pub open spec fn row_after(t: Seq<Vec<isize>>, v: Seq<isize>, r: int) -> Seq<isize> {
    if r + 1 < t.len() {
        t[r + 1]@
    } else {
        v
    }
}

pub open spec fn rows_of(t: Seq<Vec<isize>>) -> Seq<Seq<isize>> {
    t.map_values(|r: Vec<isize>| r@)
}


pub open spec fn move_of(op: DiffOp) -> Move {
    match op {
        DiffOp::Keep(_) => Move::Diag,
        DiffOp::Delete(_) => Move::Right,
        DiffOp::Insert(_) => Move::Down,
    }
}

pub open spec fn path_of(ops: Seq<DiffOp>) -> Seq<Move> {
    ops.map_values(|op: DiffOp| move_of(op))
}

pub open spec fn is_prefix(s: Seq<Seq<char>>, t: Seq<Seq<char>>) -> bool {
    s.len() <= t.len() && t.subrange(0, s.len() as int) == s
}

/// A script whose old and new sides are prefixes of `a` and `b` walks a valid path.
proof fn lemma_script_path(ops: Seq<DiffOp>, a: Seq<Seq<char>>, b: Seq<Seq<char>>)
    requires
        is_prefix(script_old(ops), a),
        is_prefix(script_new(ops), b),
    ensures
        path_valid(a, b, path_of(ops)),
        path_end(path_of(ops)) == (script_old(ops).len() as int, script_new(ops).len() as int),
        path_cost(path_of(ops)) == script_edits(ops),
    decreases ops.len(),
{
    if ops.len() > 0 {
        let pre = ops.drop_last();
        let op = ops.last();
        let so = script_old(pre);
        let sn = script_new(pre);
        assert(path_of(ops).drop_last() =~= path_of(pre));
        assert(path_of(ops).last() == move_of(op));
        assert(script_old(ops) == so + op_old(op));
        assert(script_new(ops) == sn + op_new(op));
        assert(a.subrange(0, so.len() as int) =~= a.subrange(0, script_old(ops).len() as int).subrange(
            0,
            so.len() as int,
        ));
        assert(b.subrange(0, sn.len() as int) =~= b.subrange(0, script_new(ops).len() as int).subrange(
            0,
            sn.len() as int,
        ));
        assert((so + op_old(op)).subrange(0, so.len() as int) =~= so);
        assert((sn + op_new(op)).subrange(0, sn.len() as int) =~= sn);
        lemma_script_path(pre, a, b);
        match op {
            DiffOp::Keep(l) => {
                assert(a[so.len() as int] == a.subrange(0, script_old(ops).len() as int)[so.len() as int]);
                assert((so + op_old(op))[so.len() as int] == l@);
                assert(b[sn.len() as int] == b.subrange(0, script_new(ops).len() as int)[sn.len() as int]);
                assert((sn + op_new(op))[sn.len() as int] == l@);
            },
            _ => {},
        }
    }
}

proof fn lemma_edit_script_path(ops: Seq<DiffOp>, a: Seq<Seq<char>>, b: Seq<Seq<char>>)
    requires
        is_edit_script(ops, a, b),
    ensures
        path_valid(a, b, path_of(ops)),
        path_end(path_of(ops)) == (a.len() as int, b.len() as int),
        path_cost(path_of(ops)) == script_edits(ops),
{
    assert(a.subrange(0, a.len() as int) =~= a);
    assert(b.subrange(0, b.len() as int) =~= b);
    lemma_script_path(ops, a, b);
}

/// The path of only deletions then only insertions.
proof fn lemma_straight_path(a: Seq<Seq<char>>, b: Seq<Seq<char>>, i: int, j: int) -> (p: Seq<Move>)
    requires
        i >= 0,
        j >= 0,
    ensures
        path_valid(a, b, p),
        path_end(p) == (i, j),
        path_cost(p) == i + j,
    decreases i + j,
{
    if j > 0 {
        let q = lemma_straight_path(a, b, i, j - 1);
        let p = q.push(Move::Down);
        assert(p.drop_last() =~= q);
        p
    } else if i > 0 {
        let q = lemma_straight_path(a, b, i - 1, 0);
        let p = q.push(Move::Right);
        assert(p.drop_last() =~= q);
        p
    } else {
        seq![]
    }
}

pub open spec fn nonterminal(w: Seq<isize>, off: int, k: int, n: int, m: int) -> bool {
    !(vk(w, off, k) >= n && vk(w, off, k) - k >= m)
}

pub open spec fn wit_ok(
    a: Seq<Seq<char>>,
    b: Seq<Seq<char>>,
    wit: Map<(int, int), Seq<Move>>,
    w: Seq<isize>,
    off: int,
    r: int,
    k: int,
) -> bool {
    &&& wit.contains_key((r, k))
    &&& path_valid(a, b, wit[(r, k)])
    &&& path_cost(wit[(r, k)]) == r
    &&& path_end(wit[(r, k)]) == (vk(w, off, k), vk(w, off, k) - k)
}

/// Everything known about diagonal `k` once round `r` has reached it.
pub open spec fn done_ok(
    a: Seq<Seq<char>>,
    b: Seq<Seq<char>>,
    t: Seq<Vec<isize>>,
    v: Seq<isize>,
    wit: Map<(int, int), Seq<Move>>,
    off: int,
    r: int,
    k: int,
) -> bool {
    &&& round_facts(a, b, t[r]@, row_after(t, v, r), off, r, k)
    &&& nonterminal(row_after(t, v, r), off, k, a.len() as int, b.len() as int)
    &&& wit_ok(a, b, wit, row_after(t, v, r), off, r, k)
}

fn reverse_ops(ops: Vec<DiffOp>) -> (r: Vec<DiffOp>)
    ensures
        r@ == ops@.reverse(),
{
    let mut ops = ops;
    let ghost orig = ops@;
    let mut out: Vec<DiffOp> = Vec::new();
    while ops.len() > 0
        invariant
            ops@.len() <= orig.len(),
            ops@ == orig.subrange(0, ops@.len() as int),
            out@ == orig.subrange(ops@.len() as int, orig.len() as int).reverse(),
        decreases ops@.len(),
    {
        let op = ops.pop().unwrap();
        out.push(op);
        assert(out@ =~= orig.subrange(ops@.len() as int, orig.len() as int).reverse());
    }
    assert(orig.subrange(0, orig.len() as int) =~= orig);
    out
}

proof fn lemma_step_back(
    ops: Seq<DiffOp>,
    op: DiffOp,
    a: Seq<Seq<char>>,
    b: Seq<Seq<char>>,
    x: int,
    y: int,
    dx: int,
    dy: int,
)
    requires
        0 <= x,
        x + dx <= a.len(),
        0 <= y,
        y + dy <= b.len(),
        0 <= dx <= 1,
        0 <= dy <= 1,
        script_old(ops.reverse()) == a.subrange(x + dx, a.len() as int),
        script_new(ops.reverse()) == b.subrange(y + dy, b.len() as int),
        op_old(op) == (if dx == 1 { seq![a[x]] } else { Seq::<Seq<char>>::empty() }),
        op_new(op) == (if dy == 1 { seq![b[y]] } else { Seq::<Seq<char>>::empty() }),
    ensures
        script_old(ops.push(op).reverse()) == a.subrange(x, a.len() as int),
        script_new(ops.push(op).reverse()) == b.subrange(y, b.len() as int),
        script_edits(ops.push(op).reverse()) == script_edits(ops.reverse()) + if op_is_edit(op) {
            1nat
        } else {
            0nat
        },
{
    assert(ops.push(op).reverse() =~= seq![op] + ops.reverse());
    lemma_prepend_op(op, ops.reverse());
    assert(op_old(op) + a.subrange(x + dx, a.len() as int) =~= a.subrange(x, a.len() as int));
    assert(op_new(op) + b.subrange(y + dy, b.len() as int) =~= b.subrange(y, b.len() as int));
}

proof fn lemma_prepend_op(op: DiffOp, r: Seq<DiffOp>)
    ensures
        script_old(seq![op] + r) == op_old(op) + script_old(r),
        script_new(seq![op] + r) == op_new(op) + script_new(r),
        script_edits(seq![op] + r) == script_edits(r) + if op_is_edit(op) { 1nat } else { 0nat },
{
    lemma_script_concat(seq![op], r);
    lemma_script_single(op);
}

/// Walks the recorded rounds backwards from `(n, m)` to `(0, 0)`, emitting the
/// edit script of the path the forward search found.
#[verifier::rlimit(60)]
#[verifier::rlimit(100)]
#[verifier::spinoff_prover]
fn backtrack_myers(
    trace: &[Vec<isize>],
    old_lines: &[&str],
    new_lines: &[&str],
    n: usize,
    m: usize,
) -> (ops: Vec<DiffOp>)
    requires
        n == old_lines@.len(),
        m == new_lines@.len(),
        1 <= n + m < 0x2000_0000,
        1 <= trace@.len() <= n + m + 1,
        forall|i: int| 0 <= i < trace@.len() ==> #[trigger] trace@[i]@.len() == 2 * (n + m) + 1,
        forall|i: int, j: int|
            0 <= i < trace@.len() && 0 <= j < 2 * (n + m) + 1 ==> 0 <= #[trigger] trace@[i]@[j] <= 2 * (n
                + m) + 2,
        vk(trace@[0]@, (n + m) as int, 1) == 0,
        forall|r: int, k: int|
            0 <= r < trace@.len() - 1 && diag_ok(r, k) ==> #[trigger] facts_at(
                lines_view(old_lines@),
                lines_view(new_lines@),
                rows_of(trace@),
                (n + m) as int,
                r,
                k,
            ),
        diag_ok(trace@.len() - 1, n - m),
        snake_facts(
            lines_view(old_lines@),
            lines_view(new_lines@),
            trace@[trace@.len() - 1]@,
            (n + m) as int,
            trace@.len() - 1,
            n - m,
            n as int,
        ),
    ensures
        is_edit_script(ops@, lines_view(old_lines@), lines_view(new_lines@)),
        script_edits(ops@) == trace@.len() - 1,
        deletes_first(ops@),
        op_views(ops@) == walk_back(
            lines_view(old_lines@),
            lines_view(new_lines@),
            trace_ints(trace@),
            (n + m) as int,
            trace@.len() as nat,
            n as int,
            m as int,
        ).reverse(),
{
    let ghost a = lines_view(old_lines@);
    let ghost b = lines_view(new_lines@);
    let ghost rows = rows_of(trace@);
    let ghost tl = trace@.len() as int;
    let mut x = n as isize;
    let mut y = m as isize;
    let max = n + m;
    let offset = max as isize;

    let mut ops: Vec<DiffOp> = Vec::new();

    proof {
        assert(a.subrange(n as int, n as int) =~= Seq::<Seq<char>>::empty());
        assert(b.subrange(m as int, m as int) =~= Seq::<Seq<char>>::empty());
        assert(ops@.reverse() =~= Seq::<DiffOp>::empty());
    }

    let ghost ti = trace_ints(trace@);
    let mut dd = trace.len();
    proof {
        assert(op_views(ops@) =~= Seq::<(char, Seq<char>)>::empty());
        assert(Seq::<(char, Seq<char>)>::empty() + walk_back(a, b, ti, offset as int, tl as nat, n as int, m as int)
            =~= walk_back(a, b, ti, offset as int, tl as nat, n as int, m as int));
    }
    while dd > 0
        invariant
            a == lines_view(old_lines@),
            b == lines_view(new_lines@),
            rows == rows_of(trace@),
            tl == trace@.len(),
            n == old_lines@.len(),
            m == new_lines@.len(),
            max == n + m,
            offset == max,
            1 <= n + m < 0x2000_0000,
            1 <= tl <= n + m + 1,
            forall|i: int| 0 <= i < trace@.len() ==> #[trigger] trace@[i]@.len() == 2 * (n + m) + 1,
            forall|i: int, j: int|
                0 <= i < trace@.len() && 0 <= j < 2 * (n + m) + 1 ==> 0 <= #[trigger] trace@[i]@[j]
                    <= 2 * (n + m) + 2,
            vk(trace@[0]@, (n + m) as int, 1) == 0,
            forall|r: int, k: int|
                0 <= r < tl - 1 && diag_ok(r, k) ==> #[trigger] facts_at(a, b, rows, offset as int, r, k),
            0 <= dd <= tl,
            0 <= x <= n,
            0 <= y <= m,
            dd > 0 ==> diag_ok(dd - 1, x - y),
            dd > 0 ==> snake_facts(a, b, trace@[dd - 1]@, offset as int, dd - 1, x - y, x as int),
            dd == 0 ==> x == 0 && y == 0,
            script_old(ops@.reverse()) == a.subrange(x as int, n as int),
            script_new(ops@.reverse()) == b.subrange(y as int, m as int),
            script_edits(ops@.reverse()) == if dd > 0 {
                tl - dd
            } else {
                tl - 1
            },
            deletes_first_rev(ops@),
            ti == trace_ints(trace@),
            op_views(ops@) + walk_back(a, b, ti, offset as int, dd as nat, x as int, y as int) == walk_back(
                a,
                b,
                ti,
                offset as int,
                tl as nat,
                n as int,
                m as int,
            ),
            ops@.len() > 0 && ops@.last() is Delete && dd >= 1 ==> after_delete(
                rows,
                offset as int,
                tl,
                dd as int,
                x as int,
                y as int,
            ),
        decreases dd,
    {
        let d = dd - 1;
        let ghost ops0 = ops@;
        let v = &trace[d];
        let k = x - y;
        let ghost p = v@;
        let ghost s = start_x(p, offset as int, d as int, k as int);
        proof {
            assert(rows[d as int] == p);
        }
        let prev_k = if k == -(d as isize) || (k != (d as isize) && v[(k - 1 + offset) as usize] < v[(k
            + 1 + offset) as usize]) {
            k + 1
        } else {
            k - 1
        };
        let prev_x = v[(prev_k + offset) as usize];
        let prev_y = prev_x - prev_k;

        let ghost x0 = x;
        while x > prev_x && y > prev_y
            invariant
                a == lines_view(old_lines@),
                b == lines_view(new_lines@),
                n == old_lines@.len(),
                m == new_lines@.len(),
                s <= x <= x0 <= n,
                0 <= y <= m,
                y == x - k,
                s - k >= 0,
                prev_k == k + 1 ==> s == prev_x,
                prev_k == k - 1 ==> s == prev_x + 1,
                prev_k == k + 1 || prev_k == k - 1,
                prev_y == prev_x - prev_k,
                forall|i: int| s <= i < x0 ==> #[trigger] on_diag(a, b, i, k as int),
                script_old(ops@.reverse()) == a.subrange(x as int, n as int),
                script_new(ops@.reverse()) == b.subrange(y as int, m as int),
                script_edits(ops@.reverse()) == tl - dd,
                deletes_first_rev(ops@),
                x == x0 ==> ops@ == ops0,
                x < x0 ==> ops@.len() > 0 && ops@.last() is Keep,
                op_views(ops@) == op_views(ops0) + Seq::new((x0 - x) as nat, |i: int| (' ', a[x0 - 1 - i])),
            decreases x,
        {
            x -= 1;
            y -= 1;
            let ghost r0 = ops@;
            proof {
                assert(on_diag(a, b, x as int, k as int));
            }
            let line = old_lines[x as usize].to_owned();
            let op = DiffOp::Keep(line);
            ops.push(op);
            proof {
                lemma_step_back(r0, op, a, b, x as int, y as int, 1, 1);
                lemma_push_op_order(r0, op);
                lemma_views_push(r0, op);
                assert(op_views(ops0) + Seq::new((x0 - x) as nat, |i: int| (' ', a[x0 - 1 - i])) =~= (op_views(ops0)
                    + Seq::new((x0 - x - 1) as nat, |i: int| (' ', a[x0 - 1 - i]))).push((' ', a[x as int])));
            }
        }
        proof {
            assert(ti[d as int] == row_ints(p));
            if k != -(d as int) {
                assert(ti[d as int][k - 1 + offset] == v@[(k - 1 + offset) as int] as int);
            }
            if k != d as int {
                assert(ti[d as int][k + 1 + offset] == v@[(k + 1 + offset) as int] as int);
            }
            if k == -(d as int) {
                assert(ti[d as int][k + 1 + offset] == v@[(k + 1 + offset) as int] as int);
            }
            assert(ti[d as int][prev_k + offset] == prev_x as int);
            lemma_walk_back_round(
                a,
                b,
                ti,
                offset as int,
                dd as nat,
                x0 as int,
                x0 - k,
                prev_k as int,
                prev_x as int,
                x as int,
                y as int,
                op_views(ops0),
                walk_back(a, b, ti, offset as int, tl as nat, n as int, m as int),
            );
        }

        if d > 0 {
            proof {
                assert(facts_at(a, b, rows, offset as int, d - 1, prev_k as int));
                assert(rows[d as int] == p);
            }
            if x == prev_x {
                proof {
                    if ops@.len() > 0 && ops@.last() is Delete {
                        assert(after_delete(rows, offset as int, tl, dd as int, x0 as int, x0 - k));
                        assert(x == x0);
                        assert(prev_k == k + 1);
                        assert(rows[d + 1] == rows[dd as int]);
                        lemma_insert_not_before_delete(a, b, rows, offset as int, d as int, k as int);
                    }
                }
                y -= 1;
                let ghost r0 = ops@;
                let line = new_lines[y as usize].to_owned();
                let op = DiffOp::Insert(line);
                ops.push(op);
                proof {
                    lemma_step_back(r0, op, a, b, x as int, y as int, 0, 1);
                    lemma_push_op_order(r0, op);
                    lemma_views_push(r0, op);
                }
            } else if y == prev_y {
                x -= 1;
                let ghost r0 = ops@;
                let line = old_lines[x as usize].to_owned();
                let op = DiffOp::Delete(line);
                ops.push(op);
                proof {
                    lemma_step_back(r0, op, a, b, x as int, y as int, 1, 0);
                    lemma_push_op_order(r0, op);
                    lemma_views_push(r0, op);
                    assert(prev_k == k - 1);
                    assert(v@[(k - 1 + offset) as int] == vk(rows[d as int], offset as int, k - 1));
                    assert(v@[(k + 1 + offset) as int] == vk(rows[d as int], offset as int, k + 1));
                    assert(x == vk(rows[d as int], offset as int, k - 1));
                    assert(after_delete(rows, offset as int, tl, d as int, x as int, y as int));
                }
            }
        }
        dd -= 1;
    }

    proof {
        assert(a.subrange(0, n as int) =~= a);
        assert(b.subrange(0, m as int) =~= b);
        lemma_deletes_first_reverse(ops@);
        lemma_walk_back_done(a, b, ti, offset as int, x as int, y as int);
        assert(op_views(ops@) + Seq::<(char, Seq<char>)>::empty() =~= op_views(ops@));
    }
    let out = reverse_ops(ops);
    proof {
        assert(op_views(out@) =~= walk_back(a, b, ti, offset as int, tl as nat, n as int, m as int).reverse());
    }
    out
}

// ---------------------------------------------------------------------------
// The script Myers' search picks
// ---------------------------------------------------------------------------

/// An operation as the unified diff shows it: its mark and its line.
pub open spec fn op_view(op: DiffOp) -> (char, Seq<char>) {
    match op {
        DiffOp::Keep(s) => (' ', s@),
        DiffOp::Delete(s) => ('-', s@),
        DiffOp::Insert(s) => ('+', s@),
    }
}

pub open spec fn op_views(ops: Seq<DiffOp>) -> Seq<(char, Seq<char>)> {
    ops.map_values(|op: DiffOp| op_view(op))
}

/// A row of the search with its entries as integers.
pub open spec fn row_ints(r: Seq<isize>) -> Seq<int> {
    r.map_values(|v: isize| v as int)
}

pub open spec fn trace_ints(t: Seq<Vec<isize>>) -> Seq<Seq<int>> {
    t.map_values(|r: Vec<isize>| row_ints(r@))
}

/// Where round `d` starts on diagonal `k`, from the row `p` of the round before:
/// one step down from diagonal `k + 1` or one step right from diagonal `k - 1`,
/// whichever reached further (down at the lower edge, right at the upper one).
pub open spec fn start_of(p: Seq<int>, off: int, d: int, k: int) -> int {
    if k == -d || (k != d && p[k - 1 + off] < p[k + 1 + off]) {
        p[k + 1 + off]
    } else {
        p[k - 1 + off] + 1
    }
}

/// How far the matching lines run along diagonal `k` from column `x`.
pub open spec fn snake_end(a: Seq<Seq<char>>, b: Seq<Seq<char>>, x: int, k: int) -> int
    decreases a.len() - x,
{
    if 0 <= x < a.len() && 0 <= x - k < b.len() && a[x] == b[x - k] {
        snake_end(a, b, x + 1, k)
    } else {
        x
    }
}

/// The row after round `d`: on each diagonal of the round, the start point
/// followed along its matching lines; elsewhere the row before.
#[verifier::opaque]
pub open spec fn round_row(a: Seq<Seq<char>>, b: Seq<Seq<char>>, off: int, p: Seq<int>, d: int) -> Seq<int> {
    Seq::new(
        p.len(),
        |j: int|
            if diag_ok(d, j - off) {
                snake_end(a, b, start_of(p, off, d, j - off), j - off)
            } else {
                p[j]
            },
    )
}

/// The row before round `i` (all zeros before round 0).
#[verifier::opaque]
pub open spec fn search_row(a: Seq<Seq<char>>, b: Seq<Seq<char>>, i: nat) -> Seq<int>
    decreases i,
{
    let max = a.len() + b.len();
    if i == 0 {
        Seq::new((2 * max + 1) as nat, |j: int| 0int)
    } else {
        round_row(a, b, max as int, search_row(a, b, (i - 1) as nat), i - 1)
    }
}

/// Round `d` reaches the end of both texts on some diagonal.
pub open spec fn round_done(a: Seq<Seq<char>>, b: Seq<Seq<char>>, d: nat) -> bool {
    let max = a.len() + b.len();
    exists|k: int|
        diag_ok(d as int, k) && #[trigger] search_row(a, b, d + 1)[k + max as int] >= a.len() && search_row(a, b, d + 1)[k
            + max as int] - k >= b.len()
}

/// The first round from `d` on that reaches the end (at most `a.len() + b.len()`).
pub open spec fn done_round(a: Seq<Seq<char>>, b: Seq<Seq<char>>, d: nat) -> nat
    decreases a.len() + b.len() + 1 - d,
{
    if d >= a.len() + b.len() || round_done(a, b, d) {
        d
    } else {
        done_round(a, b, d + 1)
    }
}

/// The operations the walk back pushes from `(x, y)` before round `dd`, in
/// the order it pushes them (last operation first): the matching lines back
/// to the start of the round's diagonal, then the round's insertion or
/// deletion.
#[verifier::opaque]
pub open spec fn walk_back(
    a: Seq<Seq<char>>,
    b: Seq<Seq<char>>,
    rows: Seq<Seq<int>>,
    off: int,
    dd: nat,
    x: int,
    y: int,
) -> Seq<(char, Seq<char>)>
    decreases dd,
{
    if dd == 0 {
        seq![]
    } else {
        let d = dd - 1;
        let p = rows[d];
        let k = x - y;
        let prev_k = if k == -d || (k != d && p[k - 1 + off] < p[k + 1 + off]) {
            k + 1
        } else {
            k - 1
        };
        let prev_x = p[prev_k + off];
        let prev_y = prev_x - prev_k;
        let t = if x > prev_x && y > prev_y {
            if x - prev_x < y - prev_y {
                x - prev_x
            } else {
                y - prev_y
            }
        } else {
            0
        };
        let keeps = Seq::new(t as nat, |i: int| (' ', a[x - 1 - i]));
        let x1 = x - t;
        let y1 = y - t;
        if d > 0 && x1 == prev_x {
            keeps + seq![('+', b[y1 - 1])] + walk_back(a, b, rows, off, d as nat, x1, y1 - 1)
        } else if d > 0 && y1 == prev_y {
            keeps + seq![('-', a[x1 - 1])] + walk_back(a, b, rows, off, d as nat, x1 - 1, y1)
        } else {
            keeps + walk_back(a, b, rows, off, d as nat, x1, y1)
        }
    }
}

proof fn lemma_search_row_first(a: Seq<Seq<char>>, b: Seq<Seq<char>>)
    ensures
        search_row(a, b, 0) == Seq::new((2 * (a.len() + b.len()) + 1) as nat, |j: int| 0int),
{
    reveal(search_row);
}

proof fn lemma_search_row_next(a: Seq<Seq<char>>, b: Seq<Seq<char>>, i: nat)
    ensures
        search_row(a, b, i + 1) == round_row(a, b, (a.len() + b.len()) as int, search_row(a, b, i), i as int),
{
    reveal(search_row);
    assert((i + 1) as nat - 1 == i);
}

proof fn lemma_round_row_at(a: Seq<Seq<char>>, b: Seq<Seq<char>>, off: int, p: Seq<int>, d: int, j: int)
    ensures
        round_row(a, b, off, p, d).len() == p.len(),
        0 <= j < p.len() ==> round_row(a, b, off, p, d)[j] == if diag_ok(d, j - off) {
            snake_end(a, b, start_of(p, off, d, j - off), j - off)
        } else {
            p[j]
        },
{
    reveal(round_row);
}

/// The round `done_round` finds from `r` is `d`, when no round from `r`
/// before `d` reaches the end and round `d` does.
proof fn lemma_done_round_is(a: Seq<Seq<char>>, b: Seq<Seq<char>>, r: nat, d: nat)
    requires
        r <= d <= a.len() + b.len(),
        round_done(a, b, d),
        forall|q: nat| r <= q < d ==> !#[trigger] round_done(a, b, q),
    ensures
        done_round(a, b, r) == d,
    decreases d - r,
{
    if r < d {
        assert(!round_done(a, b, r));
        lemma_done_round_is(a, b, r + 1, d);
    }
}

/// The snake the search follows from `x` on diagonal `k`, one matching line at a time.
proof fn lemma_snake_step(a: Seq<Seq<char>>, b: Seq<Seq<char>>, x: int, k: int)
    ensures
        (0 <= x < a.len() && 0 <= x - k < b.len() && a[x] == b[x - k]) ==> snake_end(a, b, x, k) == snake_end(
            a,
            b,
            x + 1,
            k,
        ),
        !(0 <= x < a.len() && 0 <= x - k < b.len() && a[x] == b[x - k]) ==> snake_end(a, b, x, k) == x,
{
}

/// The edit script Myers' algorithm picks for `a` and `b`, as marks and lines:
/// the search runs rounds until one reaches the end of both texts, then the
/// walk back from the end along the recorded rows gives the operations.
pub open spec fn myers_script(a: Seq<Seq<char>>, b: Seq<Seq<char>>) -> Seq<(char, Seq<char>)> {
    if a.len() + b.len() == 0 {
        seq![]
    } else {
        let dn = done_round(a, b, 0);
        walk_back(
            a,
            b,
            Seq::new(dn + 1, |i: int| search_row(a, b, i as nat)),
            (a.len() + b.len()) as int,
            dn + 1,
            a.len() as int,
            b.len() as int,
        ).reverse()
    }
}

/// Rows recorded so far followed by the row being filled.
pub open spec fn rows_with(t: Seq<Vec<isize>>, v: Seq<isize>) -> Seq<Seq<isize>> {
    rows_of(t).push(v)
}

/// No edit script shorter than `d` exists when rounds `0..d` found no path to `(n, m)`.
proof fn lemma_no_shorter(
    a: Seq<Seq<char>>,
    b: Seq<Seq<char>>,
    rows: Seq<Seq<isize>>,
    off: int,
    d: int,
    p: Seq<Move>,
)
    requires
        d + 1 <= rows.len(),
        forall|r: int, k: int| 0 <= r < d && diag_ok(r, k) ==> #[trigger] facts_at(a, b, rows, off, r, k),
        forall|r: int, k: int|
            0 <= r < d && diag_ok(r, k) ==> #[trigger] nonterminal(
                rows[r + 1],
                off,
                k,
                a.len() as int,
                b.len() as int,
            ),
        path_valid(a, b, p),
        path_end(p) == (a.len() as int, b.len() as int),
    ensures
        path_cost(p) >= d,
{
    lemma_path_diag(p);
    if path_cost(p) < d {
        let c = path_cost(p);
        let k = a.len() - b.len();
        lemma_furthest(a, b, rows, off, d, p);
        assert(nonterminal(rows[c + 1], off, k, a.len() as int, b.len() as int));
    }
}

/// Computes a shortest edit script turning `old_lines` into `new_lines`
/// (Myers' greedy search over diagonals, then a walk back along the recorded rows).
#[verifier::rlimit(100)]
#[verifier::spinoff_prover]
pub fn myers_diff(old_lines: &[&str], new_lines: &[&str]) -> (ops: Vec<DiffOp>)
    requires
        old_lines@.len() + new_lines@.len() < 0x2000_0000,
    ensures
        is_myers_script(ops@, lines_view(old_lines@), lines_view(new_lines@)),
        op_views(ops@) == myers_script(lines_view(old_lines@), lines_view(new_lines@)),
{
    let n = old_lines.len();
    let m = new_lines.len();
    let max = n + m;
    let ghost a = lines_view(old_lines@);
    let ghost b = lines_view(new_lines@);

    if max == 0 {
        let ops: Vec<DiffOp> = Vec::new();
        proof {
            assert(a =~= Seq::<Seq<char>>::empty());
            assert(b =~= Seq::<Seq<char>>::empty());
            assert(script_old(ops@) =~= a);
            assert(script_new(ops@) =~= b);
            assert(op_views(ops@) =~= Seq::<(char, Seq<char>)>::empty());
        }
        return ops;
    }

    let mut v = vec![0isize; 2 * max + 1];
    let offset = max as isize;
    let ghost off = offset as int;
    let ghost zeros = v@;
    proof {
        assert forall|i: int| 0 <= i < zeros.len() implies zeros[i] == 0 by {
            assert(cloned(0isize, zeros[i]));
        }
        lemma_search_row_first(a, b);
        assert(row_ints(v@) =~= search_row(a, b, 0));
    }

    let mut trace: Vec<Vec<isize>> = Vec::new();
    let ghost mut wit: Map<(int, int), Seq<Move>> = Map::empty();

    let mut d: isize = 0;
    while d <= max as isize
        invariant
            a == lines_view(old_lines@),
            b == lines_view(new_lines@),
            n == old_lines@.len(),
            m == new_lines@.len(),
            max == n + m,
            1 <= max < 0x2000_0000,
            offset == max,
            off == offset,
            zeros.len() == 2 * max + 1,
            forall|i: int| 0 <= i < zeros.len() ==> zeros[i] == 0,
            v@.len() == 2 * max + 1,
            0 <= d <= max + 1,
            trace@.len() == d,
            forall|i: int| 0 <= i < trace@.len() ==> #[trigger] trace@[i]@.len() == 2 * max + 1,
            forall|i: int, j: int|
                0 <= i < trace@.len() && 0 <= j < 2 * max + 1 ==> 0 <= #[trigger] trace@[i]@[j] <= n + i,
            forall|j: int| 0 <= j < 2 * max + 1 ==> 0 <= #[trigger] v@[j] <= n + d,
            d > 0 ==> trace@[0]@ == zeros,
            d == 0 ==> v@ == zeros,
            forall|r: int, k: int|
                0 <= r < d && diag_ok(r, k) ==> #[trigger] done_ok(a, b, trace@, v@, wit, off, r, k),
            forall|i: int| 0 <= i < d ==> #[trigger] row_ints(trace@[i]@) == search_row(a, b, i as nat),
            row_ints(v@) == search_row(a, b, d as nat),
            forall|q: nat| q < d ==> !#[trigger] round_done(a, b, q),
        decreases max + 1 - d,
    {
        let ghost prev_trace = trace@;
        trace.push(v.clone());
        proof {
            assert(trace@[d as int]@ =~= v@);
            assert forall|r: int, k: int| 0 <= r < d && diag_ok(r, k) implies #[trigger] done_ok(
                a,
                b,
                trace@,
                v@,
                wit,
                off,
                r,
                k,
            ) by {
                assert(done_ok(a, b, prev_trace, v@, wit, off, r, k));
                assert(trace@[r] == prev_trace[r]);
                assert(row_after(trace@, v@, r) == row_after(prev_trace, v@, r));
            }
            assert forall|i: int| 0 <= i <= d implies #[trigger] row_ints(trace@[i]@) == search_row(a, b, i as nat) by {
                if i < d {
                    assert(trace@[i] == prev_trace[i]);
                }
            }
        }
        let ghost p = trace@[d as int]@;
        proof {
            assert(row_ints(p) == search_row(a, b, d as nat));
        }

        let mut k: isize = -d;
        while k <= d
            invariant
                a == lines_view(old_lines@),
                b == lines_view(new_lines@),
                n == old_lines@.len(),
                m == new_lines@.len(),
                max == n + m,
                1 <= max < 0x2000_0000,
                offset == max,
                off == offset,
                zeros.len() == 2 * max + 1,
                forall|i: int| 0 <= i < zeros.len() ==> zeros[i] == 0,
                v@.len() == 2 * max + 1,
                0 <= d <= max,
                trace@.len() == d + 1,
                p == trace@[d as int]@,
                forall|i: int| 0 <= i < trace@.len() ==> #[trigger] trace@[i]@.len() == 2 * max + 1,
                forall|i: int, j: int|
                    0 <= i < trace@.len() && 0 <= j < 2 * max + 1 ==> 0 <= #[trigger] trace@[i]@[j] <= n
                        + i,
                forall|j: int| 0 <= j < 2 * max + 1 ==> 0 <= #[trigger] v@[j] <= n + d + 1,
                trace@[0]@ == zeros,
                -d <= k <= d + 2,
                (k + d) % 2 == 0,
                forall|kk: int|
                    -max <= kk <= max && (kk + d) % 2 != 0 ==> #[trigger] v@[kk + off] == p[kk + off],
                forall|r: int, kk: int|
                    (0 <= r < d && diag_ok(r, kk)) || (r == d && diag_ok(r, kk) && kk < k)
                        ==> #[trigger] done_ok(a, b, trace@, v@, wit, off, r, kk),
                forall|i: int| 0 <= i <= d ==> #[trigger] row_ints(trace@[i]@) == search_row(a, b, i as nat),
                forall|q: nat| q < d ==> !#[trigger] round_done(a, b, q),
                forall|j: int|
                    0 <= j < 2 * max + 1 ==> #[trigger] row_ints(v@)[j] == if diag_ok(d as int, j - off) && j - off
                        < k {
                        round_row(a, b, off, row_ints(p), d as int)[j]
                    } else {
                        row_ints(p)[j]
                    },
                forall|kk: int|
                    diag_ok(d as int, kk) && kk < k ==> !(#[trigger] v@[kk + off] >= n && v@[kk + off] - kk >= m),
            decreases d + 2 - k,
        {
            let ghost is_down = k == -d || (k != d && vk(p, off, k - 1) < vk(p, off, k + 1));
            proof {
                if k != -d {
                    assert(v@[(k - 1) + off] == p[(k - 1) + off]);
                }
                if k != d {
                    assert(v@[(k + 1) + off] == p[(k + 1) + off]);
                }
                if k == -d {
                    assert(v@[(k + 1) + off] == p[(k + 1) + off]);
                }
            }
            let mut x = if k == -d || (k != d && v[(k - 1 + offset) as usize] < v[(k + 1 + offset)
                as usize]) {
                v[(k + 1 + offset) as usize]
            } else {
                v[(k - 1 + offset) as usize] + 1
            };
            let mut y = x - k;
            let ghost s = x as int;
            proof {
                assert(s == start_x(p, off, d as int, k as int));
            }
            let ghost mut path: Seq<Move> = Seq::empty();
            proof {
                if d == 0 {
                    assert(k == 0);
                    assert(p == zeros);
                    assert(s == 0);
                } else if is_down {
                    let r = (d - 1) as int;
                    let kk = (k + 1) as int;
                    assert(diag_ok(r, kk));
                    assert(done_ok(a, b, trace@, v@, wit, off, r, kk));
                    assert(row_after(trace@, v@, r) == p);
                    let q = wit[(r, kk)];
                    path = q.push(Move::Down);
                    assert(path.drop_last() =~= q);
                } else {
                    let r = (d - 1) as int;
                    let kk = (k - 1) as int;
                    assert(diag_ok(r, kk));
                    assert(done_ok(a, b, trace@, v@, wit, off, r, kk));
                    assert(row_after(trace@, v@, r) == p);
                    let q = wit[(r, kk)];
                    path = q.push(Move::Right);
                    assert(path.drop_last() =~= q);
                }
            }

            while (x as usize) < n && (y as usize) < m && str_eq(old_lines[x as usize], new_lines[y as usize])
                invariant
                    a == lines_view(old_lines@),
                    b == lines_view(new_lines@),
                    n == old_lines@.len(),
                    m == new_lines@.len(),
                    1 <= max < 0x2000_0000,
                    max == n + m,
                    0 <= d <= max,
                    -d <= k <= d,
                    0 <= s <= x,
                    s - k >= 0,
                    x <= n + d + 1,
                    y == x - k,
                    forall|i: int| s <= i < x ==> #[trigger] on_diag(a, b, i, k as int),
                    path_valid(a, b, path),
                    path_cost(path) == d,
                    path_end(path) == (x as int, y as int),
                    snake_end(a, b, s, k as int) == snake_end(a, b, x as int, k as int),
                decreases 4 * max - x,
            {
                proof {
                    assert(on_diag(a, b, x as int, k as int));
                    let q = path;
                    path = q.push(Move::Diag);
                    assert(path.drop_last() =~= q);
                }
                x += 1;
                y += 1;
            }
            proof {
                lemma_snake_step(a, b, x as int, k as int);
                if 0 <= x < a.len() && 0 <= x - k < b.len() {
                    assert(a[x as int] == old_lines@[x as int]@);
                    assert(b[x - k] == new_lines@[x - k]@);
                }
                assert(snake_end(a, b, s, k as int) == x);
                lemma_round_row_at(a, b, off, row_ints(p), d as int, k + off);
                assert(start_of(row_ints(p), off, d as int, k as int) == s);
            }
            let ghost old_v = v@;
            let ghost old_wit = wit;
            v.set((k + offset) as usize, x);
            proof {
                assert forall|j: int|
                    0 <= j < 2 * max + 1 implies #[trigger] row_ints(v@)[j] == if diag_ok(d as int, j - off) && j
                        - off < k + 2 {
                        round_row(a, b, off, row_ints(p), d as int)[j]
                    } else {
                        row_ints(p)[j]
                    } by {
                    if j != k + off {
                        assert(row_ints(v@)[j] == row_ints(old_v)[j]);
                        if diag_ok(d as int, j - off) && j - off < k + 2 {
                            assert(j - off < k) by {
                                assert((j - off + d) % 2 == 0);
                                assert((k + d) % 2 == 0);
                            }
                        }
                    }
                }
                wit = wit.insert((d as int, k as int), path);
                assert(vk(v@, off, k as int) == x);
                assert(round_facts(a, b, p, v@, off, d as int, k as int));
                assert forall|r: int, kk: int|
                    (0 <= r < d && diag_ok(r, kk)) || (r == d && diag_ok(r, kk) && kk < k) implies #[trigger] done_ok(
                    a,
                    b,
                    trace@,
                    v@,
                    wit,
                    off,
                    r,
                    kk,
                ) by {
                    if r == d && kk == k {
                        assert(row_after(trace@, v@, r) == v@);
                    } else {
                        assert(done_ok(a, b, trace@, old_v, old_wit, off, r, kk));
                        if r == d {
                            assert(row_after(trace@, v@, r) == v@);
                            assert(row_after(trace@, old_v, r) == old_v);
                            assert(vk(v@, off, kk) == vk(old_v, off, kk));
                        } else {
                            assert(row_after(trace@, v@, r) == row_after(trace@, old_v, r));
                        }
                    }
                }
            }

            if x as usize >= n && y as usize >= m {
                proof {
                    // The search stops exactly at the corner.
                    let rows = rows_of(trace@);
                    assert forall|r: int, kk: int| 0 <= r < d && diag_ok(r, kk) implies #[trigger] facts_at(
                        a,
                        b,
                        rows,
                        off,
                        r,
                        kk,
                    ) by {
                        assert(done_ok(a, b, trace@, v@, wit, off, r, kk));
                        assert(rows[r] == trace@[r]@);
                        assert(rows[r + 1] == trace@[r + 1]@);
                    }
                    assert forall|r: int, kk: int| 0 <= r < d && diag_ok(r, kk) implies #[trigger] nonterminal(
                        rows[r + 1],
                        off,
                        kk,
                        n as int,
                        m as int,
                    ) by {
                        assert(done_ok(a, b, trace@, v@, wit, off, r, kk));
                        assert(rows[r + 1] == trace@[r + 1]@);
                    }
                    let q = lemma_clip(a, b, path);
                    lemma_no_shorter(a, b, rows, off, d as int, q);
                    assert(x == n && y == m);
                }
                proof {
                    lemma_search_row_next(a, b, d as nat);
                    assert(search_row(a, b, (d + 1) as nat)[k + off] == x);
                    assert(round_done(a, b, d as nat));
                    lemma_done_round_is(a, b, 0, d as nat);
                    assert(trace_ints(trace@) =~= Seq::new((d + 1) as nat, |i: int| search_row(a, b, i as nat)));
                }
                let ops = backtrack_myers(trace.as_slice(), old_lines, new_lines, n, m);
                proof {
                    let rows = rows_of(trace@);
                    assert forall|other: Seq<DiffOp>| #[trigger]
                        is_edit_script(other, a, b) implies script_edits(ops@) <= script_edits(other) by {
                        lemma_edit_script_path(other, a, b);
                        lemma_no_shorter(a, b, rows, off, d as int, path_of(other));
                    }
                }
                return ops;
            }
            k += 2;
        }
        proof {
            lemma_search_row_next(a, b, d as nat);
            assert forall|j: int| 0 <= j < 2 * max + 1 implies row_ints(v@)[j] == search_row(a, b, (d + 1) as nat)[j] by {
                lemma_round_row_at(a, b, off, row_ints(p), d as int, j);
                assert(row_ints(v@)[j] == if diag_ok(d as int, j - off) && j - off < k {
                    round_row(a, b, off, row_ints(p), d as int)[j]
                } else {
                    row_ints(p)[j]
                });
            }
            lemma_round_row_at(a, b, off, row_ints(p), d as int, 0);
            assert(row_ints(v@) =~= search_row(a, b, (d + 1) as nat));
            assert(!round_done(a, b, d as nat)) by {
                if round_done(a, b, d as nat) {
                    let kk = choose|kk: int|
                        diag_ok(d as int, kk) && #[trigger] search_row(a, b, (d + 1) as nat)[kk + max as int] >= a.len()
                            && search_row(a, b, (d + 1) as nat)[kk + max as int] - kk >= b.len();
                    assert(row_ints(v@)[kk + off] == v@[kk + off] as int);
                    assert(!(v@[kk + off] >= n && v@[kk + off] - kk >= m));
                }
            }
        }
        d += 1;
    }
    proof {
        let rows = rows_with(trace@, v@);
        let sp = lemma_straight_path(a, b, n as int, m as int);
        assert forall|r: int, kk: int| 0 <= r < d && diag_ok(r, kk) implies #[trigger] facts_at(
            a,
            b,
            rows,
            off,
            r,
            kk,
        ) by {
            assert(done_ok(a, b, trace@, v@, wit, off, r, kk));
        }
        assert forall|r: int, kk: int| 0 <= r < d && diag_ok(r, kk) implies #[trigger] nonterminal(
            rows[r + 1],
            off,
            kk,
            n as int,
            m as int,
        ) by {
            assert(done_ok(a, b, trace@, v@, wit, off, r, kk));
        }
        lemma_no_shorter(a, b, rows, off, d as int, sp);
    }
    Vec::new()
}

// ---------------------------------------------------------------------------
// Unified diff output
// ---------------------------------------------------------------------------

pub open spec fn is_change(op: DiffOp) -> bool {
    !(op is Keep)
}

/// The first index at or after `j` that holds a change, or `ops.len()`.
pub open spec fn next_change(ops: Seq<DiffOp>, j: int) -> int
    decreases ops.len() - j,
{
    if j >= ops.len() {
        ops.len() as int
    } else if is_change(ops[j]) {
        j
    } else {
        next_change(ops, j + 1)
    }
}

/// The last change of the hunk holding the change at `c`: two changes share a hunk
/// when at most six unchanged lines stand between them.
pub open spec fn cluster_last(ops: Seq<DiffOp>, c: int) -> int
    decreases ops.len() - c,
{
    let nc = next_change(ops, c + 1);
    if c < nc < ops.len() && nc - c - 1 <= 6 {
        cluster_last(ops, nc)
    } else {
        c
    }
}

/// A hunk opens three lines of context before its first change ...
pub open spec fn hunk_first(i: int) -> int {
    if i >= 3 {
        i - 3
    } else {
        0
    }
}

/// ... and closes three lines after its last change.
pub open spec fn hunk_last(ops: Seq<DiffOp>, i: int) -> int {
    min_int(cluster_last(ops, i) + 4, ops.len() as int)
}

pub open spec fn op_text(op: DiffOp) -> Seq<char> {
    match op {
        DiffOp::Keep(l) => seq![' '] + l@ + seq!['\n'],
        DiffOp::Delete(l) => seq!['-'] + l@ + seq!['\n'],
        DiffOp::Insert(l) => seq!['+'] + l@ + seq!['\n'],
    }
}

pub open spec fn ops_text(ops: Seq<DiffOp>) -> Seq<char>
    decreases ops.len(),
{
    if ops.len() == 0 {
        seq![]
    } else {
        ops_text(ops.drop_last()) + op_text(ops.last())
    }
}

pub open spec fn hunk_header(ol: nat, oc: nat, nl: nat, nc: nat) -> Seq<char> {
    "@@ -"@ + decimal(ol) + ","@ + decimal(oc) + " +"@ + decimal(nl) + ","@ + decimal(nc) + " @@\n"@
}

/// One hunk: its `@@` header (1-based start lines and line counts on each side)
/// and its lines.
pub open spec fn hunk_text(ops: Seq<DiffOp>, s: int, e: int) -> Seq<char> {
    let pre = ops.subrange(0, s);
    let body = ops.subrange(s, e);
    hunk_header(
        script_old(pre).len() + 1,
        script_old(body).len(),
        script_new(pre).len() + 1,
        script_new(body).len(),
    ) + ops_text(body)
}

/// The hunks from index `i` on.
pub open spec fn hunks_text(ops: Seq<DiffOp>, i: int) -> Seq<char>
    decreases ops.len() - i,
{
    if i < 0 || i >= ops.len() {
        seq![]
    } else if !is_change(ops[i]) {
        hunks_text(ops, i + 1)
    } else {
        let e = hunk_last(ops, i);
        hunk_text(ops, hunk_first(i), e) + if e > i {
            hunks_text(ops, e)
        } else {
            seq![]
        }
    }
}

pub open spec fn has_change(ops: Seq<DiffOp>) -> bool {
    exists|j: int| 0 <= j < ops.len() && is_change(#[trigger] ops[j])
}

/// The unified diff of a script: empty when nothing changes, otherwise the
/// `diff --git` / `---` / `+++` header followed by the hunks.
pub open spec fn diff_text(
    path: Seq<char>,
    old_label: Seq<char>,
    new_label: Seq<char>,
    ops: Seq<DiffOp>,
) -> Seq<char> {
    if !has_change(ops) {
        seq![]
    } else {
        "diff --git a/"@ + path + " b/"@ + path + "\n"@ + "--- "@ + old_label + "\n"@ + "+++ "@
            + new_label + "\n"@ + hunks_text(ops, 0)
    }
}

/// The script that keeps every line `ops` walks through in the old text.
spec fn keep_old(ops: Seq<DiffOp>) -> Seq<DiffOp>
    decreases ops.len(),
{
    if ops.len() == 0 {
        seq![]
    } else {
        keep_old(ops.drop_last()) + match ops.last() {
            DiffOp::Keep(l) => seq![DiffOp::Keep(l)],
            DiffOp::Delete(l) => seq![DiffOp::Keep(l)],
            DiffOp::Insert(_) => seq![],
        }
    }
}

proof fn lemma_keep_old(ops: Seq<DiffOp>)
    ensures
        script_old(keep_old(ops)) == script_old(ops),
        script_new(keep_old(ops)) == script_old(ops),
        script_edits(keep_old(ops)) == 0,
    decreases ops.len(),
{
    if ops.len() > 0 {
        let k0 = keep_old(ops.drop_last());
        lemma_keep_old(ops.drop_last());
        let tail: Seq<DiffOp> = match ops.last() {
            DiffOp::Keep(l) => seq![DiffOp::Keep(l)],
            DiffOp::Delete(l) => seq![DiffOp::Keep(l)],
            DiffOp::Insert(_) => seq![],
        };
        lemma_script_concat(k0, tail);
        match ops.last() {
            DiffOp::Insert(_) => {
                assert(tail =~= Seq::<DiffOp>::empty());
                assert(script_old(tail) =~= Seq::<Seq<char>>::empty());
                assert(script_new(tail) =~= Seq::<Seq<char>>::empty());
                assert(script_old(k0) + script_old(tail) =~= script_old(k0));
                assert(script_new(k0) + script_new(tail) =~= script_new(k0));
                assert(script_old(ops.drop_last()) + op_old(ops.last()) =~= script_old(ops.drop_last()));
            },
            DiffOp::Keep(l) => {
                lemma_script_single(DiffOp::Keep(l));
            },
            DiffOp::Delete(l) => {
                lemma_script_single(DiffOp::Keep(l));
            },
        }
    }
}

proof fn lemma_no_edits_no_change(ops: Seq<DiffOp>)
    requires
        script_edits(ops) == 0,
    ensures
        !has_change(ops),
    decreases ops.len(),
{
    if ops.len() > 0 {
        lemma_no_edits_no_change(ops.drop_last());
        assert forall|j: int| 0 <= j < ops.len() implies !is_change(#[trigger] ops[j]) by {
            if j < ops.len() - 1 {
                assert(ops.drop_last()[j] == ops[j]);
            }
        }
    }
}

/// Diffing a text against itself shows nothing: a shortest edit script
/// from a text to the same text has no change, so its unified diff is empty.
pub proof fn diff_of_same_text_is_empty(
    ops: Seq<DiffOp>,
    lines: Seq<Seq<char>>,
    path: Seq<char>,
    old_label: Seq<char>,
    new_label: Seq<char>,
)
    requires
        is_shortest_edit_script(ops, lines, lines),
    ensures
        !has_change(ops),
        diff_text(path, old_label, new_label, ops) == Seq::<char>::empty(),
{
    lemma_keep_old(ops);
    assert(is_edit_script(keep_old(ops), lines, lines));
    lemma_no_edits_no_change(ops);
}

proof fn lemma_next_change(ops: Seq<DiffOp>, j: int)
    requires
        0 <= j,
    ensures
        j <= next_change(ops, j) || ops.len() < j,
        next_change(ops, j) <= ops.len() || j > ops.len(),
        next_change(ops, j) < ops.len() ==> is_change(ops[next_change(ops, j)]),
        forall|t: int| j <= t < next_change(ops, j) ==> !is_change(#[trigger] ops[t]),
    decreases ops.len() - j,
{
    if j < ops.len() && !is_change(ops[j]) {
        lemma_next_change(ops, j + 1);
    }
}

proof fn lemma_cluster_last(ops: Seq<DiffOp>, c: int)
    requires
        0 <= c < ops.len(),
    ensures
        c <= cluster_last(ops, c) < ops.len(),
    decreases ops.len() - c,
{
    let nc = next_change(ops, c + 1);
    if c < nc < ops.len() && nc - c - 1 <= 6 {
        lemma_cluster_last(ops, nc);
    }
}

/// The line an operation shows in a unified diff: its mark and its text (a
/// final carriage return is not part of a line).
pub open spec fn shown_line(op: DiffOp) -> Seq<char> {
    crate::text::strip_cr(
        match op {
            DiffOp::Keep(l) => seq![' '] + l@,
            DiffOp::Delete(l) => seq!['-'] + l@,
            DiffOp::Insert(l) => seq!['+'] + l@,
        },
    )
}

/// The text of an operation's line.
pub open spec fn op_line(op: DiffOp) -> Seq<char> {
    match op {
        DiffOp::Keep(l) => l@,
        DiffOp::Delete(l) => l@,
        DiffOp::Insert(l) => l@,
    }
}

/// The deletions and insertions of a script, in order, as the diff shows them.
pub open spec fn change_lines(ops: Seq<DiffOp>) -> Seq<Seq<char>>
    decreases ops.len(),
{
    if ops.len() == 0 {
        seq![]
    } else {
        (if is_change(ops[0]) {
            seq![shown_line(ops[0])]
        } else {
            seq![]
        }) + change_lines(ops.drop_first())
    }
}

/// The lines of a text that show a deletion (`-`) or an insertion (`+`).
pub open spec fn marked_lines(ls: Seq<Seq<char>>) -> Seq<Seq<char>>
    decreases ls.len(),
{
    if ls.len() == 0 {
        seq![]
    } else {
        (if ls[0].len() > 0 && (ls[0][0] == '-' || ls[0][0] == '+') {
            seq![ls[0]]
        } else {
            seq![]
        }) + marked_lines(ls.drop_first())
    }
}

proof fn lemma_marked_concat(a: Seq<Seq<char>>, b: Seq<Seq<char>>)
    ensures
        marked_lines(a + b) == marked_lines(a) + marked_lines(b),
    decreases a.len(),
{
    if a.len() == 0 {
        assert(a + b =~= b);
    } else {
        lemma_marked_concat(a.drop_first(), b);
        assert((a + b).drop_first() =~= a.drop_first() + b);
        assert((a + b)[0] == a[0]);
    }
}

proof fn lemma_change_lines_concat(a: Seq<DiffOp>, b: Seq<DiffOp>)
    ensures
        change_lines(a + b) == change_lines(a) + change_lines(b),
    decreases a.len(),
{
    if a.len() == 0 {
        assert(a + b =~= b);
    } else {
        lemma_change_lines_concat(a.drop_first(), b);
        assert((a + b).drop_first() =~= a.drop_first() + b);
        assert((a + b)[0] == a[0]);
    }
}

proof fn lemma_change_lines_one(op: DiffOp)
    ensures
        change_lines(seq![op]) == (if is_change(op) { seq![shown_line(op)] } else { Seq::<Seq<char>>::empty() }),
{
    assert(seq![op].drop_first() =~= Seq::<DiffOp>::empty());
    assert(seq![op][0] == op);
    assert(change_lines(Seq::<DiffOp>::empty()) =~= Seq::<Seq<char>>::empty());
    let h: Seq<Seq<char>> = if is_change(op) { seq![shown_line(op)] } else { Seq::<Seq<char>>::empty() };
    assert(h + Seq::<Seq<char>>::empty() =~= h);
}

proof fn lemma_marked_one(x: Seq<char>)
    ensures
        marked_lines(seq![x]) == (if x.len() > 0 && (x[0] == '-' || x[0] == '+') {
            seq![x]
        } else {
            Seq::<Seq<char>>::empty()
        }),
{
    assert(seq![x].drop_first() =~= Seq::<Seq<char>>::empty());
    assert(seq![x][0] == x);
    assert(marked_lines(Seq::<Seq<char>>::empty()) =~= Seq::<Seq<char>>::empty());
    let h: Seq<Seq<char>> = if x.len() > 0 && (x[0] == '-' || x[0] == '+') {
        seq![x]
    } else {
        Seq::<Seq<char>>::empty()
    };
    assert(h + Seq::<Seq<char>>::empty() =~= h);
}

proof fn lemma_change_lines_none(ops: Seq<DiffOp>)
    requires
        forall|j: int| 0 <= j < ops.len() ==> !is_change(#[trigger] ops[j]),
    ensures
        change_lines(ops) == Seq::<Seq<char>>::empty(),
    decreases ops.len(),
{
    if ops.len() > 0 {
        assert forall|j: int| 0 <= j < ops.drop_first().len() implies !is_change(#[trigger] ops.drop_first()[j]) by {
            assert(ops.drop_first()[j] == ops[j + 1]);
        }
        lemma_change_lines_none(ops.drop_first());
    }
}

/// The lines of a text that ends with a newline, followed by more text.
proof fn lemma_lines_concat(x: Seq<char>, y: Seq<char>)
    requires
        x.len() == 0 || x.last() == '\n',
    ensures
        crate::text::lines_of(x + y) == crate::text::lines_of(x) + crate::text::lines_of(y),
    decreases x.len(),
{
    if x.len() == 0 {
        assert(x + y =~= y);
        assert(crate::text::lines_of(x) =~= Seq::<Seq<char>>::empty());
    } else {
        crate::text::lemma_first_index_bounds(x, '\n');
        let i = crate::text::first_index(x, '\n');
        if i < 0 {
            assert(x[x.len() - 1] == '\n');
        }
        let x1 = x.subrange(0, i);
        let x2 = x.subrange(i + 1, x.len() as int);
        assert(!x1.contains('\n')) by {
            if x1.contains('\n') {
                let k = choose|k: int| 0 <= k < x1.len() && x1[k] == '\n';
                assert(x[k] == '\n');
            }
        }
        assert(x =~= x1 + seq!['\n'] + x2);
        assert(x + y =~= x1 + seq!['\n'] + (x2 + y));
        crate::text::lemma_lines_cons_cr(x1, x2 + y);
        crate::text::lemma_lines_cons_cr(x1, x2);
        if x2.len() > 0 {
            assert(x2.last() == x.last());
        }
        lemma_lines_concat(x2, y);
        assert(seq![crate::text::strip_cr(x1)] + (crate::text::lines_of(x2) + crate::text::lines_of(y)) =~= (seq![
            crate::text::strip_cr(x1),
        ] + crate::text::lines_of(x2)) + crate::text::lines_of(y));
    }
}

/// The first character of the line an operation shows is its mark.
proof fn lemma_shown_line(op: DiffOp)
    ensures
        shown_line(op).len() > 0,
        shown_line(op)[0] == (match op {
            DiffOp::Keep(_) => ' ',
            DiffOp::Delete(_) => '-',
            DiffOp::Insert(_) => '+',
        }),
{
}

/// No operation's text holds a newline (each is one line of a file).
pub open spec fn one_line_ops(ops: Seq<DiffOp>) -> bool {
    forall|j: int| 0 <= j < ops.len() ==> !op_line(#[trigger] ops[j]).contains('\n')
}

proof fn lemma_ops_text_marked(ops: Seq<DiffOp>)
    requires
        one_line_ops(ops),
    ensures
        marked_lines(crate::text::lines_of(ops_text(ops))) == change_lines(ops),
        ops_text(ops).len() == 0 || ops_text(ops).last() == '\n',
    decreases ops.len(),
{
    if ops.len() == 0 {
        assert(crate::text::lines_of(Seq::<char>::empty()) =~= Seq::<Seq<char>>::empty());
    } else {
        let o0 = ops.drop_last();
        let op = ops.last();
        assert forall|j: int| 0 <= j < o0.len() implies !op_line(#[trigger] o0[j]).contains('\n') by {
            assert(o0[j] == ops[j]);
        }
        lemma_ops_text_marked(o0);
        assert(ops[ops.len() - 1] == op);
        let ml = match op {
            DiffOp::Keep(l) => seq![' '] + l@,
            DiffOp::Delete(l) => seq!['-'] + l@,
            DiffOp::Insert(l) => seq!['+'] + l@,
        };
        assert(!ml.contains('\n')) by {
            if ml.contains('\n') {
                let k = choose|k: int| 0 <= k < ml.len() && ml[k] == '\n';
                assert(k > 0);
                assert(op_line(op)[k - 1] == '\n');
            }
        }
        assert(op_text(op) =~= ml + seq!['\n'] + Seq::<char>::empty());
        crate::text::lemma_lines_cons_cr(ml, Seq::<char>::empty());
        assert(crate::text::lines_of(Seq::<char>::empty()) =~= Seq::<Seq<char>>::empty());
        assert(crate::text::lines_of(op_text(op)) =~= seq![shown_line(op)]);
        lemma_lines_concat(ops_text(o0), op_text(op));
        lemma_marked_concat(crate::text::lines_of(ops_text(o0)), seq![shown_line(op)]);
        lemma_shown_line(op);
        lemma_marked_one(shown_line(op));
        assert(o0 + seq![op] =~= ops);
        lemma_change_lines_concat(o0, seq![op]);
        lemma_change_lines_one(op);
        assert(op_text(op).last() == '\n');
    }
}

proof fn lemma_hunk_marked(ops: Seq<DiffOp>, s: int, e: int)
    requires
        0 <= s < e <= ops.len(),
        one_line_ops(ops),
    ensures
        marked_lines(crate::text::lines_of(hunk_text(ops, s, e))) == change_lines(ops.subrange(s, e)),
        hunk_text(ops, s, e).last() == '\n',
{
    reveal_strlit("@@ -");
    reveal_strlit(",");
    reveal_strlit(" +");
    reveal_strlit(" @@\n");
    reveal_strlit(" @@");
    let pre = ops.subrange(0, s);
    let body = ops.subrange(s, e);
    assert forall|j: int| 0 <= j < body.len() implies !op_line(#[trigger] body[j]).contains('\n') by {
        assert(body[j] == ops[s + j]);
    }
    let d1 = decimal((script_old(pre).len() + 1) as nat);
    let d2 = decimal(script_old(body).len());
    let d3 = decimal((script_new(pre).len() + 1) as nat);
    let d4 = decimal(script_new(body).len());
    crate::commit::lemma_decimal_digits((script_old(pre).len() + 1) as nat);
    crate::commit::lemma_decimal_digits(script_old(body).len());
    crate::commit::lemma_decimal_digits((script_new(pre).len() + 1) as nat);
    crate::commit::lemma_decimal_digits(script_new(body).len());
    let h = "@@ -"@ + d1 + ","@ + d2 + " +"@ + d3 + ","@ + d4 + " @@"@;
    assert(!h.contains('\n')) by {
        if h.contains('\n') {
            let k = choose|k: int| 0 <= k < h.len() && h[k] == '\n';
            let l1 = 4 + d1.len();
            let l2 = l1 + 1 + d2.len();
            let l3 = l2 + 2 + d3.len();
            let l4 = l3 + 1 + d4.len();
            if k < 4 {
            } else if k < l1 {
                assert(h[k] == d1[k - 4]);
                assert(d1.contains('\n'));
            } else if k < l1 + 1 {
            } else if k < l2 {
                assert(h[k] == d2[k - l1 - 1]);
                assert(d2.contains('\n'));
            } else if k < l2 + 2 {
            } else if k < l3 {
                assert(h[k] == d3[k - l2 - 2]);
                assert(d3.contains('\n'));
            } else if k < l3 + 1 {
            } else if k < l4 {
                assert(h[k] == d4[k - l3 - 1]);
                assert(d4.contains('\n'));
            } else {
            }
        }
    }
    assert(hunk_header(
        (script_old(pre).len() + 1) as nat,
        script_old(body).len(),
        (script_new(pre).len() + 1) as nat,
        script_new(body).len(),
    ) =~= h + seq!['\n']);
    lemma_ops_text_marked(body);
    assert(hunk_text(ops, s, e) =~= h + seq!['\n'] + ops_text(body));
    crate::text::lemma_lines_cons_cr(h, ops_text(body));
    assert(h[0] == '@');
    assert(crate::text::strip_cr(h)[0] == '@');
    lemma_marked_concat(seq![crate::text::strip_cr(h)], crate::text::lines_of(ops_text(body)));
    lemma_marked_one(crate::text::strip_cr(h));
    assert(Seq::<Seq<char>>::empty() + change_lines(body) =~= change_lines(body));
    if ops_text(body).len() == 0 {
        assert(body.len() > 0);
        assert(body == body.drop_last().push(body.last()));
    }
}

/// `cluster_last` stops where the next change is more than six unchanged
/// lines away (or where there is none).
proof fn lemma_cluster_last_stops(ops: Seq<DiffOp>, c: int)
    requires
        0 <= c < ops.len(),
    ensures
        ({
            let cl = cluster_last(ops, c);
            forall|t: int| cl < t < ops.len() && t <= cl + 6 ==> !is_change(#[trigger] ops[t])
        }),
    decreases ops.len() - c,
{
    let nc = next_change(ops, c + 1);
    lemma_next_change(ops, c + 1);
    if c < nc < ops.len() && nc - c - 1 <= 6 {
        lemma_cluster_last_stops(ops, nc);
    }
}

/// Every change from `i` on is shown by the hunks from `i` on, in order.
proof fn lemma_hunks_marked(ops: Seq<DiffOp>, i: int)
    requires
        0 <= i <= ops.len(),
        one_line_ops(ops),
        forall|j: int| hunk_first(i) <= j < i ==> !is_change(#[trigger] ops[j]),
    ensures
        marked_lines(crate::text::lines_of(hunks_text(ops, i))) == change_lines(ops.subrange(i, ops.len() as int)),
    decreases ops.len() - i,
{
    if i == ops.len() {
        assert(crate::text::lines_of(Seq::<char>::empty()) =~= Seq::<Seq<char>>::empty());
        assert(ops.subrange(i, ops.len() as int) =~= Seq::<DiffOp>::empty());
    } else if !is_change(ops[i]) {
        assert forall|j: int| hunk_first(i + 1) <= j < i + 1 implies !is_change(#[trigger] ops[j]) by {}
        lemma_hunks_marked(ops, i + 1);
        assert(ops.subrange(i, ops.len() as int) =~= seq![ops[i]] + ops.subrange(i + 1, ops.len() as int));
        lemma_change_lines_concat(seq![ops[i]], ops.subrange(i + 1, ops.len() as int));
        lemma_change_lines_one(ops[i]);
        assert(Seq::<Seq<char>>::empty() + change_lines(ops.subrange(i + 1, ops.len() as int)) =~= change_lines(
            ops.subrange(i + 1, ops.len() as int),
        ));
    } else {
        lemma_cluster_last(ops, i);
        lemma_cluster_last_stops(ops, i);
        let cl = cluster_last(ops, i);
        let s = hunk_first(i);
        let e = hunk_last(ops, i);
        assert(i < e <= ops.len());
        lemma_hunk_marked(ops, s, e);
        let rest = hunks_text(ops, e);
        assert(hunks_text(ops, i) == hunk_text(ops, s, e) + rest);
        lemma_lines_concat(hunk_text(ops, s, e), rest);
        lemma_marked_concat(crate::text::lines_of(hunk_text(ops, s, e)), crate::text::lines_of(rest));
        if e < ops.len() {
            assert(e == cl + 4);
            assert forall|j: int| hunk_first(e) <= j < e implies !is_change(#[trigger] ops[j]) by {}
            lemma_hunks_marked(ops, e);
        } else {
            assert(rest == Seq::<char>::empty());
            assert(crate::text::lines_of(rest) =~= Seq::<Seq<char>>::empty());
            assert(ops.subrange(e, ops.len() as int) =~= Seq::<DiffOp>::empty());
            assert(change_lines(Seq::<DiffOp>::empty()) =~= Seq::<Seq<char>>::empty());
            assert(marked_lines(Seq::<Seq<char>>::empty()) =~= Seq::<Seq<char>>::empty());
        }
        // the unchanged lines before `i` in the hunk show no change
        assert forall|j: int| 0 <= j < ops.subrange(s, i).len() implies !is_change(#[trigger] ops.subrange(s, i)[j]) by {
            assert(ops.subrange(s, i)[j] == ops[s + j]);
        }
        lemma_change_lines_none(ops.subrange(s, i));
        assert(ops.subrange(s, e) =~= ops.subrange(s, i) + ops.subrange(i, e));
        lemma_change_lines_concat(ops.subrange(s, i), ops.subrange(i, e));
        assert(ops.subrange(i, ops.len() as int) =~= ops.subrange(i, e) + ops.subrange(e, ops.len() as int));
        lemma_change_lines_concat(ops.subrange(i, e), ops.subrange(e, ops.len() as int));
        assert(Seq::<Seq<char>>::empty() + change_lines(ops.subrange(i, e)) =~= change_lines(ops.subrange(i, e)));
    }
}

/// A unified diff shows every change of its script: the lines after its
/// three header lines that begin with `-` or `+` are exactly the script's
/// deletions and insertions, each once and in the script's order (when no
/// line of the script, the path or a label holds a newline).
pub proof fn diff_shows_every_change(
    path: Seq<char>,
    old_label: Seq<char>,
    new_label: Seq<char>,
    ops: Seq<DiffOp>,
)
    requires
        has_change(ops),
        one_line_ops(ops),
        !path.contains('\n'),
        !old_label.contains('\n'),
        !new_label.contains('\n'),
    ensures
        crate::text::lines_of(diff_text(path, old_label, new_label, ops)).len() >= 3,
        marked_lines(crate::text::lines_of(diff_text(path, old_label, new_label, ops)).skip(3)) == change_lines(ops),
{
    reveal_strlit("diff --git a/");
    reveal_strlit(" b/");
    reveal_strlit("\n");
    reveal_strlit("--- ");
    reveal_strlit("+++ ");
    let l1 = "diff --git a/"@ + path + " b/"@ + path;
    let l2 = "--- "@ + old_label;
    let l3 = "+++ "@ + new_label;
    let hk = hunks_text(ops, 0);
    assert(!l1.contains('\n')) by {
        if l1.contains('\n') {
            let k = choose|k: int| 0 <= k < l1.len() && l1[k] == '\n';
            if 13 <= k < 13 + path.len() {
                assert(path[k - 13] == '\n');
                assert(path.contains('\n'));
            } else if 13 + path.len() + 3 <= k {
                assert(path[k - 16 - path.len()] == '\n');
                assert(path.contains('\n'));
            }
        }
    }
    assert(!l2.contains('\n')) by {
        if l2.contains('\n') {
            let k = choose|k: int| 0 <= k < l2.len() && l2[k] == '\n';
            if k >= 4 {
                assert(old_label[k - 4] == '\n');
                assert(old_label.contains('\n'));
            }
        }
    }
    assert(!l3.contains('\n')) by {
        if l3.contains('\n') {
            let k = choose|k: int| 0 <= k < l3.len() && l3[k] == '\n';
            if k >= 4 {
                assert(new_label[k - 4] == '\n');
                assert(new_label.contains('\n'));
            }
        }
    }
    let t = diff_text(path, old_label, new_label, ops);
    assert(t =~= l1 + seq!['\n'] + (l2 + seq!['\n'] + (l3 + seq!['\n'] + hk)));
    crate::text::lemma_lines_cons_cr(l1, l2 + seq!['\n'] + (l3 + seq!['\n'] + hk));
    crate::text::lemma_lines_cons_cr(l2, l3 + seq!['\n'] + hk);
    crate::text::lemma_lines_cons_cr(l3, hk);
    let ls = crate::text::lines_of(t);
    assert(ls =~= seq![crate::text::strip_cr(l1), crate::text::strip_cr(l2), crate::text::strip_cr(l3)]
        + crate::text::lines_of(hk));
    assert(ls.skip(3) =~= crate::text::lines_of(hk));
    lemma_hunks_marked(ops, 0);
    assert(ops.subrange(0, ops.len() as int) =~= ops);
}

proof fn lemma_subrange_step(ops: Seq<DiffOp>, s: int, j: int)
    requires
        0 <= s <= j < ops.len(),
    ensures
        script_old(ops.subrange(s, j + 1)) == script_old(ops.subrange(s, j)) + op_old(ops[j]),
        script_new(ops.subrange(s, j + 1)) == script_new(ops.subrange(s, j)) + op_new(ops[j]),
        ops_text(ops.subrange(s, j + 1)) == ops_text(ops.subrange(s, j)) + op_text(ops[j]),
{
    assert(ops.subrange(s, j + 1).drop_last() =~= ops.subrange(s, j));
}

/// The index of the first change at or after `from`, if any.
fn find_change_from(ops: &Vec<DiffOp>, from: usize) -> (r: Option<usize>)
    ensures
        from <= ops@.len() ==> match r {
            Some(nc) => nc == next_change(ops@, from as int) && nc < ops@.len(),
            None => next_change(ops@, from as int) == ops@.len(),
        },
        from > ops@.len() ==> r is None,
{
    let mut j = from;
    while j < ops.len()
        invariant
            from <= j,
            from <= ops@.len() ==> j <= ops@.len(),
            from <= ops@.len() ==> next_change(ops@, from as int) == next_change(ops@, j as int),
        decreases ops@.len() - j,
    {
        if matches!(ops[j], DiffOp::Delete(_) | DiffOp::Insert(_)) {
            return Some(j);
        }
        j += 1;
    }
    None
}

/// Appends the `+`/`-`/space-prefixed line of one operation.
fn push_op_line(out: &mut Vec<char>, op: &DiffOp)
    ensures
        final(out)@ == old(out)@ + op_text(*op),
{
    match op {
        DiffOp::Keep(line) => {
            out.push(' ');
            push_str(out, line.as_str());
            out.push('\n');
        },
        DiffOp::Delete(line) => {
            out.push('-');
            push_str(out, line.as_str());
            out.push('\n');
        },
        DiffOp::Insert(line) => {
            out.push('+');
            push_str(out, line.as_str());
            out.push('\n');
        },
    }
    assert(out@ =~= old(out)@ + op_text(*op));
}

/// Renders an edit script as a unified diff with three lines of context.
#[verifier::rlimit(80)]
pub fn format_diff_ops(path: &str, ops: &Vec<DiffOp>, old_label: &str, new_label: &str) -> (r: String)
    requires
        ops@.len() < 0x4000_0000,
    ensures
        r@ == diff_text(path@, old_label@, new_label@, ops@),
        has_change(ops@) && one_line_ops(ops@) && !path@.contains('\n') && !old_label@.contains('\n')
            && !new_label@.contains('\n') ==> marked_lines(crate::text::lines_of(r@).skip(3)) == change_lines(ops@),
{
    proof {
        if has_change(ops@) && one_line_ops(ops@) && !path@.contains('\n') && !old_label@.contains('\n')
            && !new_label@.contains('\n') {
            diff_shows_every_change(path@, old_label@, new_label@, ops@);
        }
    }
    let mut has_changes = false;
    let mut t: usize = 0;
    while t < ops.len()
        invariant_except_break
            t <= ops@.len(),
            !has_changes,
            forall|u: int| 0 <= u < t ==> !is_change(#[trigger] ops@[u]),
        ensures
            has_changes <==> has_change(ops@),
        decreases ops@.len() - t,
    {
        if matches!(ops[t], DiffOp::Delete(_) | DiffOp::Insert(_)) {
            has_changes = true;
            break;
        }
        t += 1;
    }

    if !has_changes {
        return String::new();
    }

    let mut out: Vec<char> = Vec::new();
    push_str(&mut out, "diff --git a/");
    push_str(&mut out, path);
    push_str(&mut out, " b/");
    push_str(&mut out, path);
    push_str(&mut out, "\n");
    push_str(&mut out, "--- ");
    push_str(&mut out, old_label);
    push_str(&mut out, "\n");
    push_str(&mut out, "+++ ");
    push_str(&mut out, new_label);
    push_str(&mut out, "\n");
    let ghost header = out@;

    let context_size: usize = 3;
    let mut i: usize = 0;
    let ghost all = ops@;

    while i < ops.len()
        invariant
            all == ops@,
            ops@.len() < 0x4000_0000,
            context_size == 3,
            i <= ops@.len(),
            out@ + hunks_text(all, i as int) == header + hunks_text(all, 0),
        decreases ops@.len() - i,
    {
        if matches!(ops[i], DiffOp::Keep(_)) {
            i += 1;
            continue;
        }

        let hunk_start = i.saturating_sub(context_size);
        let mut hunk_end = i;
        let mut lookahead = i;
        let ghost mut c: int = i as int;
        proof {
            lemma_cluster_last(all, i as int);
        }

        while lookahead < ops.len()
            invariant
                all == ops@,
                ops@.len() < 0x4000_0000,
                context_size == 3,
                i < ops@.len(),
                is_change(all[i as int]),
                i <= c < all.len(),
                is_change(all[c]),
                cluster_last(all, i as int) == cluster_last(all, c),
                lookahead == c + 1 ==> hunk_end == min_int(c + 4, all.len() as int),
                lookahead == c ==> hunk_end <= all.len(),
                lookahead == c + 1 || lookahead == c,
            ensures
                hunk_end == hunk_last(all, i as int),
            decreases all.len() - c, (if lookahead == c { 1int } else { 0int }),
        {
            if matches!(ops[lookahead], DiffOp::Delete(_) | DiffOp::Insert(_)) {
                proof {
                    if lookahead == c + 1 {
                        lemma_next_change(all, c + 1);
                        assert(next_change(all, c + 1) == c + 1);
                        c = c + 1;
                    }
                }
                let end = lookahead + context_size + 1;
                hunk_end = if end < ops.len() {
                    end
                } else {
                    ops.len()
                };
            } else {
                let next_change = find_change_from(ops, lookahead);
                proof {
                    lemma_next_change(all, c + 1);
                }
                if let Some(nc) = next_change {
                    if nc - lookahead <= 2 * context_size {
                        lookahead = nc;
                        proof {
                            assert(cluster_last(all, c) == cluster_last(all, nc as int));
                            c = nc as int;
                        }
                        continue;
                    }
                }
                proof {
                    assert(cluster_last(all, c) == c);
                }
                break;
            }
            lookahead += 1;
        }
        proof {
            lemma_cluster_last(all, i as int);
        }

        let mut old_line_num: usize = 1;
        let mut new_line_num: usize = 1;
        let mut j: usize = 0;
        while j < hunk_start
            invariant
                all == ops@,
                all.len() < 0x4000_0000,
                hunk_start <= i < all.len(),
                j <= hunk_start,
                old_line_num == script_old(all.subrange(0, j as int)).len() + 1,
                new_line_num == script_new(all.subrange(0, j as int)).len() + 1,
                script_old(all.subrange(0, j as int)).len() <= j,
                script_new(all.subrange(0, j as int)).len() <= j,
            decreases hunk_start - j,
        {
            proof {
                lemma_subrange_step(all, 0, j as int);
            }
            match &ops[j] {
                DiffOp::Keep(_) => {
                    old_line_num += 1;
                    new_line_num += 1;
                },
                DiffOp::Delete(_) => old_line_num += 1,
                DiffOp::Insert(_) => new_line_num += 1,
            }
            j += 1;
        }

        let mut old_count: usize = 0;
        let mut new_count: usize = 0;
        let mut j: usize = hunk_start;
        while j < hunk_end
            invariant
                all == ops@,
                hunk_start <= j <= hunk_end <= all.len(),
                old_count == script_old(all.subrange(hunk_start as int, j as int)).len(),
                new_count == script_new(all.subrange(hunk_start as int, j as int)).len(),
                old_count <= j - hunk_start,
                new_count <= j - hunk_start,
            decreases hunk_end - j,
        {
            proof {
                lemma_subrange_step(all, hunk_start as int, j as int);
            }
            match &ops[j] {
                DiffOp::Keep(_) => {
                    old_count += 1;
                    new_count += 1;
                },
                DiffOp::Delete(_) => old_count += 1,
                DiffOp::Insert(_) => new_count += 1,
            }
            j += 1;
        }

        let ghost before = out@;
        push_str(&mut out, "@@ -");
        push_decimal(&mut out, old_line_num);
        push_str(&mut out, ",");
        push_decimal(&mut out, old_count);
        push_str(&mut out, " +");
        push_decimal(&mut out, new_line_num);
        push_str(&mut out, ",");
        push_decimal(&mut out, new_count);
        push_str(&mut out, " @@\n");
        let ghost with_header = out@;

        let mut j: usize = hunk_start;
        while j < hunk_end
            invariant
                all == ops@,
                hunk_start <= j <= hunk_end <= all.len(),
                out@ == with_header + ops_text(all.subrange(hunk_start as int, j as int)),
            decreases hunk_end - j,
        {
            proof {
                lemma_subrange_step(all, hunk_start as int, j as int);
            }
            push_op_line(&mut out, &ops[j]);
            j += 1;
        }
        proof {
            let e = hunk_last(all, i as int);
            assert(hunk_start == hunk_first(i as int));
            assert(out@ =~= before + hunk_text(all, hunk_start as int, e));
            assert(hunks_text(all, i as int) == hunk_text(all, hunk_start as int, e) + hunks_text(all, e));
            assert(out@ + hunks_text(all, e) =~= before + hunks_text(all, i as int));
        }
        i = hunk_end;
    }
    proof {
        assert(out@ =~= header + hunks_text(all, 0));
    }
    string_of(&out)
}

proof fn lemma_script_len(ops: Seq<DiffOp>)
    ensures
        ops.len() <= script_old(ops).len() + script_new(ops).len(),
    decreases ops.len(),
{
    if ops.len() > 0 {
        lemma_script_len(ops.drop_last());
    }
}

/// The unified diff between two versions of a file: a shortest edit script,
/// rendered with three lines of context (empty when the versions agree).
pub fn format_diff_output(
    path: &str,
    old_lines: &[&str],
    new_lines: &[&str],
    old_label: &str,
    new_label: &str,
) -> (r: String)
    requires
        old_lines@.len() + new_lines@.len() < 0x2000_0000,
    ensures
        exists|ops: Seq<DiffOp>|
            is_myers_script(ops, lines_view(old_lines@), lines_view(new_lines@)) && op_views(ops) == myers_script(
                lines_view(old_lines@),
                lines_view(new_lines@),
            ) && r@
                == diff_text(path@, old_label@, new_label@, ops),
{
    let ops = myers_diff(old_lines, new_lines);
    proof {
        lemma_script_len(ops@);
    }
    format_diff_ops(path, &ops, old_label, new_label)
}
} // verus!

verus! {

/// Whether a `diff` limited to `filters` covers `path`: no filters cover
/// everything; otherwise the path must equal a filter or lie below one.
pub open spec fn path_selected(filters: Seq<Seq<char>>, path: Seq<char>) -> bool {
    filters.len() == 0 || exists|k: int|
        0 <= k < filters.len() && (path == #[trigger] filters[k] || crate::text::has_prefix(
            path,
            filters[k].push('/'),
        ))
}

/// Whether `diff` with these path filters covers `path`.
pub fn should_process(filters: &Vec<String>, path: &str) -> (r: bool)
    ensures
        r == path_selected(crate::text::string_views(filters@), path@),
{
    if filters.len() == 0 {
        return true;
    }
    let ghost fv = crate::text::string_views(filters@);
    let mut i: usize = 0;
    while i < filters.len()
        invariant
            fv == crate::text::string_views(filters@),
            fv.len() > 0,
            i <= fv.len(),
            forall|k: int|
                0 <= k < i ==> !(path@ == #[trigger] fv[k] || crate::text::has_prefix(path@, fv[k].push('/'))),
        decreases fv.len() - i,
    {
        let mut dir = crate::text::chars_of(filters[i].as_str());
        dir.push('/');
        let d = crate::text::string_of(&dir);
        if crate::text::str_eq(path, filters[i].as_str()) || crate::text::starts_with(path, d.as_str()) {
            assert(fv[i as int] == filters@[i as int]@);
            return true;
        }
        assert(fv[i as int] == filters@[i as int]@);
        i += 1;
    }
    false
}

/// The lines of a file's content as `diff` compares them: none for empty
/// content, else the lines of its lossy decoding.
pub open spec fn content_lines(bytes: Seq<u8>) -> Seq<Seq<char>> {
    if bytes.len() == 0 {
        seq![]
    } else {
        crate::text::lines_of(crate::codec::lossy_decode(bytes))
    }
}

fn content_lines_of(bytes: &[u8]) -> (r: Vec<String>)
    ensures
        crate::text::string_views(r@) == content_lines(bytes@),
{
    if bytes.len() == 0 {
        let v: Vec<String> = Vec::new();
        assert(crate::text::string_views(v@) =~= Seq::<Seq<char>>::empty());
        v
    } else {
        let s = crate::codec::from_utf8_lossy(bytes);
        crate::text::split_lines(s.as_str())
    }
}

/// Whether two byte strings are equal.
pub fn bytes_eq(a: &[u8], b: &[u8]) -> (r: bool)
    ensures
        r == (a@ == b@),
{
    if a.len() != b.len() {
        return false;
    }
    let r = crate::bytes::bytes_match_at(a, 0, b);
    assert(a@.subrange(0, b@.len() as int) =~= a@);
    r
}

fn as_strs<'a>(v: &'a Vec<String>) -> (r: Vec<&'a str>)
    ensures
        lines_view(r@) == crate::text::string_views(v@),
{
    let mut out: Vec<&str> = Vec::new();
    let mut i: usize = 0;
    while i < v.len()
        invariant
            i <= v@.len(),
            lines_view(out@) == crate::text::string_views(v@).take(i as int),
        decreases v@.len() - i,
    {
        let ghost before = out@;
        assert(lines_view(out@).len() == out@.len());
        assert(crate::text::string_views(v@).take(i as int).len() == i);
        let x = v[i].as_str();
        out.push(x);
        assert(out@ == before.push(x));
        assert(lines_view(out@).len() == out@.len());
        assert(lines_view(out@)[i as int] == x@);
        assert(lines_view(out@) =~= crate::text::string_views(v@).take(i + 1));
        i += 1;
    }
    assert(crate::text::string_views(v@).take(v@.len() as int) =~= crate::text::string_views(v@));
    out
}

/// `a/<path>` or `b/<path>`.
pub open spec fn side_label(side: char, path: Seq<char>) -> Seq<char> {
    seq![side, '/'] + path
}

/// The diff `diff` prints for one path, given both versions' content: empty
/// when they are equal, else the unified diff of a shortest edit script of
/// their lines, labelled `a/<path>` and `b/<path>`. `None` when the two
/// versions together have `0x2000_0000` lines or more.
pub fn diff_file(path: &str, old_bytes: &[u8], new_bytes: &[u8]) -> (r: Option<String>)
    ensures
        old_bytes@ == new_bytes@ ==> (r matches Some(s) && s@.len() == 0),
        old_bytes@ != new_bytes@ ==> {
            let ol = content_lines(old_bytes@);
            let nl = content_lines(new_bytes@);
            if ol.len() + nl.len() < 0x2000_0000 {
                r matches Some(s) && exists|ops: Seq<DiffOp>|
                    is_myers_script(ops, ol, nl) && op_views(ops) == myers_script(ol, nl) && s@ == diff_text(
                        path@,
                        side_label('a', path@),
                        side_label('b', path@),
                        ops,
                    )
            } else {
                r is None
            }
        },
{
    if bytes_eq(old_bytes, new_bytes) {
        let e = String::new();
        return Some(e);
    }
    let old_lines = content_lines_of(old_bytes);
    let new_lines = content_lines_of(new_bytes);
    if old_lines.len() >= 0x2000_0000 || new_lines.len() >= 0x2000_0000 - old_lines.len() {
        return None;
    }
    let ol = as_strs(&old_lines);
    let nl = as_strs(&new_lines);
    let mut a: Vec<char> = Vec::new();
    a.push('a');
    a.push('/');
    crate::text::push_str(&mut a, path);
    let mut b: Vec<char> = Vec::new();
    b.push('b');
    b.push('/');
    crate::text::push_str(&mut b, path);
    let al = crate::text::string_of(&a);
    let bl = crate::text::string_of(&b);
    assert(al@ =~= side_label('a', path@));
    assert(bl@ =~= side_label('b', path@));
    Some(format_diff_output(path, ol.as_slice(), nl.as_slice(), al.as_str(), bl.as_str()))
}

} // verus!
