//! The order of texts and of rows of texts, and strictly sorted tables of
//! rows.

use crate::text::texts_of;
use vstd::prelude::*;
use vstd::string::*;

verus! {

/// Lexicographic order over an order of the items.
pub open spec fn lex_less<T>(less: spec_fn(T, T) -> bool, a: Seq<T>, b: Seq<T>) -> bool
    decreases b.len(),
{
    if b.len() == 0 {
        false
    } else if a.len() == 0 {
        true
    } else if a[0] == b[0] {
        lex_less(less, a.drop_first(), b.drop_first())
    } else {
        less(a[0], b[0])
    }
}

/// The order of characters by code point.
pub open spec fn char_order() -> spec_fn(char, char) -> bool {
    |a: char, b: char| a < b
}

/// Texts in the order of their code points.
pub open spec fn text_less(a: Seq<char>, b: Seq<char>) -> bool {
    lex_less(char_order(), a, b)
}

pub open spec fn text_order() -> spec_fn(Seq<char>, Seq<char>) -> bool {
    |a: Seq<char>, b: Seq<char>| text_less(a, b)
}

/// Rows of texts, compared text by text.
pub open spec fn row_less(a: Seq<Seq<char>>, b: Seq<Seq<char>>) -> bool {
    lex_less(text_order(), a, b)
}

pub open spec fn row_order() -> spec_fn(Seq<Seq<char>>, Seq<Seq<char>>) -> bool {
    |a: Seq<Seq<char>>, b: Seq<Seq<char>>| row_less(a, b)
}

/// A strict total order.
pub open spec fn strict_order<T>(less: spec_fn(T, T) -> bool) -> bool {
    &&& forall|a: T| !#[trigger] less(a, a)
    &&& forall|a: T, b: T, c: T| #[trigger]
        less(a, b) && #[trigger] less(b, c) ==> less(a, c)
    &&& forall|a: T, b: T| a == b || #[trigger] less(a, b) || less(b, a)
}

proof fn lex_irreflexive<T>(less: spec_fn(T, T) -> bool, a: Seq<T>)
    ensures
        !lex_less(less, a, a),
    decreases a.len(),
{
    if a.len() > 0 {
        lex_irreflexive(less, a.drop_first());
    }
}

proof fn lex_transitive<T>(less: spec_fn(T, T) -> bool, a: Seq<T>, b: Seq<T>, c: Seq<T>)
    requires
        strict_order(less),
        lex_less(less, a, b),
        lex_less(less, b, c),
    ensures
        lex_less(less, a, c),
    decreases c.len(),
{
    if a.len() > 0 && b.len() > 0 && c.len() > 0 {
        if a[0] == b[0] && b[0] == c[0] {
            lex_transitive(less, a.drop_first(), b.drop_first(), c.drop_first());
        } else if a[0] != b[0] && b[0] != c[0] {
            assert(less(a[0], b[0]) && less(b[0], c[0]));
            assert(less(a[0], c[0]));
            assert(!less(a[0], a[0]));
        }
    }
}

proof fn lex_total<T>(less: spec_fn(T, T) -> bool, a: Seq<T>, b: Seq<T>)
    requires
        strict_order(less),
    ensures
        a == b || lex_less(less, a, b) || lex_less(less, b, a),
    decreases a.len(),
{
    if a.len() == 0 || b.len() == 0 {
        if a.len() == b.len() {
            assert(a =~= b);
        }
    } else if a[0] == b[0] {
        lex_total(less, a.drop_first(), b.drop_first());
        if a.drop_first() == b.drop_first() {
            assert(a =~= seq![a[0]] + a.drop_first());
            assert(b =~= seq![b[0]] + b.drop_first());
        }
    } else {
        assert(less(a[0], b[0]) || less(b[0], a[0]));
    }
}

/// Lexicographic order over a strict total order is one too.
pub proof fn lex_order_is_strict<T>(
    less: spec_fn(T, T) -> bool,
    lex: spec_fn(Seq<T>, Seq<T>) -> bool,
)
    requires
        strict_order(less),
        forall|a: Seq<T>, b: Seq<T>| #[trigger] lex(a, b) == lex_less(less, a, b),
    ensures
        strict_order(lex),
{
    assert forall|a: Seq<T>| !#[trigger] lex(a, a) by {
        lex_irreflexive(less, a);
    }
    assert forall|a: Seq<T>, b: Seq<T>, c: Seq<T>| #[trigger] lex(a, b) && #[trigger] lex(b, c)
        implies lex(a, c) by {
        lex_transitive(less, a, b, c);
    }
    assert forall|a: Seq<T>, b: Seq<T>| a == b || #[trigger] lex(a, b) || lex(b, a) by {
        lex_total(less, a, b);
    }
}

/// Texts are totally ordered, and so are rows of texts.
pub proof fn text_orders_are_strict()
    ensures
        strict_order(text_order()),
        strict_order(row_order()),
{
    lex_order_is_strict(char_order(), text_order());
    lex_order_is_strict(text_order(), row_order());
}

/// Which of two texts comes first.
pub(crate) enum Placed {
    Before,
    Same,
    After,
}

/// Places one text against another.
pub(crate) fn place_text(a: &str, b: &str) -> (r: Placed)
    ensures
        r is Before <==> text_less(a@, b@),
        r is Same <==> a@ == b@,
        r is After <==> text_less(b@, a@),
{
    let x = crate::text::chars_of(a);
    let y = crate::text::chars_of(b);
    let mut i: usize = 0;
    assert(x@.skip(0) =~= x@);
    assert(y@.skip(0) =~= y@);
    proof {
        text_orders_are_strict();
        assert(text_order()(a@, b@) == text_less(a@, b@));
        assert(text_order()(b@, a@) == text_less(b@, a@));
        assert(text_order()(a@, a@) == text_less(a@, a@));
        assert(text_order()(b@, b@) == text_less(b@, b@));
    }
    while i < x.len() && i < y.len()
        invariant
            i <= x.len(),
            i <= y.len(),
            x@ == a@,
            y@ == b@,
            x@.take(i as int) =~= y@.take(i as int),
            strict_order(text_order()),
            text_order()(a@, b@) == text_less(a@, b@),
            text_order()(b@, a@) == text_less(b@, a@),
            text_order()(a@, a@) == text_less(a@, a@),
            text_less(a@, b@) == text_less(x@.skip(i as int), y@.skip(i as int)),
            text_less(b@, a@) == text_less(y@.skip(i as int), x@.skip(i as int)),
        decreases x.len() - i,
    {
        if x[i] != y[i] {
            if x[i] < y[i] {
                assert(text_less(a@, b@));
                assert(!(text_order()(b@, a@)));
                return Placed::Before;
            } else {
                assert(text_less(b@, a@));
                assert(!(text_order()(a@, b@)));
                return Placed::After;
            }
        }
        assert(x@.skip(i as int).drop_first() =~= x@.skip(i + 1));
        assert(y@.skip(i as int).drop_first() =~= y@.skip(i + 1));
        assert(x@.take(i + 1) =~= x@.take(i as int).push(x@[i as int]));
        assert(y@.take(i + 1) =~= y@.take(i as int).push(y@[i as int]));
        i += 1;
    }
    if x.len() == y.len() {
        assert(x@ =~= x@.take(i as int));
        assert(y@ =~= y@.take(i as int));
        Placed::Same
    } else if x.len() < y.len() {
        Placed::Before
    } else {
        Placed::After
    }
}

/// The texts of each row of a table.
pub open spec fn rows_of(table: Seq<Vec<String>>) -> Seq<Seq<Seq<char>>> {
    table.map_values(|row: Vec<String>| texts_of(row@))
}

/// Each row comes before all later ones.
pub open spec fn strictly_sorted(rows: Seq<Seq<Seq<char>>>) -> bool {
    forall|i: int, j: int| 0 <= i < j < rows.len() ==> row_less(#[trigger] rows[i], #[trigger] rows[j])
}

/// A strictly sorted list is determined by what it contains.
pub proof fn sorted_rows_are_determined(a: Seq<Seq<Seq<char>>>, b: Seq<Seq<Seq<char>>>)
    requires
        strictly_sorted(a),
        strictly_sorted(b),
        forall|row: Seq<Seq<char>>| a.contains(row) <==> b.contains(row),
    ensures
        a == b,
    decreases a.len(),
{
    text_orders_are_strict();
    assert forall|x: Seq<Seq<char>>, y: Seq<Seq<char>>| row_order()(x, y) == #[trigger] row_less(x, y) by {}
    if a.len() == 0 {
        if b.len() > 0 {
            assert(b.contains(b[0]));
        }
        assert(a =~= b);
    } else if b.len() == 0 {
        assert(a.contains(a[0]));
    } else {
        let x = a.last();
        let y = b.last();
        assert(a.contains(x) && b.contains(y));
        if x != y {
            let i = choose|i: int| 0 <= i < b.len() && b[i] == x;
            let j = choose|j: int| 0 <= j < a.len() && a[j] == y;
            assert(row_less(b[i], b[b.len() - 1]));
            assert(row_less(a[j], a[a.len() - 1]));
            assert(row_order()(x, y) && row_order()(y, x));
            assert(row_order()(x, x));
        }
        let a1 = a.drop_last();
        let b1 = b.drop_last();
        assert forall|row: Seq<Seq<char>>| a1.contains(row) <==> b1.contains(row) by {
            if a1.contains(row) {
                let i = choose|i: int| 0 <= i < a1.len() && a1[i] == row;
                assert(a[i] == row);
                assert(a.contains(row));
                assert(row_less(a[i], a[a.len() - 1]));
                assert(row_order()(row, x));
                assert(!row_order()(x, x));
                let j = choose|j: int| 0 <= j < b.len() && b[j] == row;
                assert(b1[j] == row);
            }
            if b1.contains(row) {
                let i = choose|i: int| 0 <= i < b1.len() && b1[i] == row;
                assert(b[i] == row);
                assert(b.contains(row));
                assert(row_less(b[i], b[b.len() - 1]));
                assert(row_order()(row, y));
                assert(!row_order()(y, y));
                let j = choose|j: int| 0 <= j < a.len() && a[j] == row;
                assert(a1[j] == row);
            }
        }
        sorted_rows_are_determined(a1, b1);
        assert(a =~= a1.push(x));
        assert(b =~= b1.push(y));
    }
}

/// Places one row against another.
fn place_row(a: &Vec<String>, b: &Vec<String>) -> (r: Placed)
    ensures
        r is Before <==> row_less(texts_of(a@), texts_of(b@)),
        r is Same <==> texts_of(a@) == texts_of(b@),
        r is After <==> row_less(texts_of(b@), texts_of(a@)),
{
    let ghost x = texts_of(a@);
    let ghost y = texts_of(b@);
    let mut i: usize = 0;
    assert(x.skip(0) =~= x);
    assert(y.skip(0) =~= y);
    proof {
        text_orders_are_strict();
        assert(row_order()(x, y) == row_less(x, y));
        assert(row_order()(y, x) == row_less(y, x));
        assert(row_order()(x, x) == row_less(x, x));
        assert(row_order()(y, y) == row_less(y, y));
    }
    while i < a.len() && i < b.len()
        invariant
            i <= a.len(),
            i <= b.len(),
            x == texts_of(a@),
            y == texts_of(b@),
            x.take(i as int) =~= y.take(i as int),
            strict_order(row_order()),
            strict_order(text_order()),
            row_order()(x, y) == row_less(x, y),
            row_order()(y, x) == row_less(y, x),
            row_order()(x, x) == row_less(x, x),
            row_less(x, y) == row_less(x.skip(i as int), y.skip(i as int)),
            row_less(y, x) == row_less(y.skip(i as int), x.skip(i as int)),
        decreases a.len() - i,
    {
        assert(x[i as int] == a@[i as int]@ && y[i as int] == b@[i as int]@);
        match place_text(a[i].as_str(), b[i].as_str()) {
            Placed::Before => {
                proof {
                    assert(!text_order()(x[i as int], x[i as int]));
                    assert(text_order()(x[i as int], y[i as int]));
                    assert(row_less(x, y));
                    assert(!(row_order()(y, x)));
                }
                return Placed::Before;
            },
            Placed::After => {
                proof {
                    assert(!text_order()(x[i as int], x[i as int]));
                    assert(text_order()(y[i as int], x[i as int]));
                    assert(row_less(y, x));
                    assert(!(row_order()(x, y)));
                }
                return Placed::After;
            },
            Placed::Same => {},
        }
        assert(x.skip(i as int).drop_first() =~= x.skip(i + 1));
        assert(y.skip(i as int).drop_first() =~= y.skip(i + 1));
        assert(x.take(i + 1) =~= x.take(i as int).push(x[i as int]));
        assert(y.take(i + 1) =~= y.take(i as int).push(y[i as int]));
        i += 1;
    }
    if a.len() == b.len() {
        assert(x =~= x.take(i as int));
        assert(y =~= y.take(i as int));
        Placed::Same
    } else if a.len() < b.len() {
        Placed::Before
    } else {
        Placed::After
    }
}

/// Puts a row into a strictly sorted table, once.
pub(crate) fn insert_row(table: &mut Vec<Vec<String>>, row: Vec<String>)
    requires
        strictly_sorted(rows_of(old(table)@)),
    ensures
        strictly_sorted(rows_of(final(table)@)),
        forall|r: Seq<Seq<char>>| #[trigger]
            rows_of(final(table)@).contains(r) <==> rows_of(old(table)@).contains(r) || r
                == texts_of(row@),
{
    let ghost rows = rows_of(table@);
    let ghost new = texts_of(row@);
    let mut at: usize = 0;
    while at < table.len()
        invariant
            at <= table.len(),
            rows == rows_of(table@),
            *table == *old(table),
            new == texts_of(row@),
            strictly_sorted(rows),
            forall|i: int| 0 <= i < at ==> row_less(#[trigger] rows[i], new),
        ensures
            at <= table.len(),
            forall|i: int| 0 <= i < at ==> row_less(#[trigger] rows[i], new),
            at < table.len() ==> row_less(new, rows[at as int]),
        decreases table.len() - at,
    {
        assert(rows[at as int] == texts_of(table@[at as int]@));
        match place_row(&table[at], &row) {
            Placed::Before => {},
            Placed::Same => {
                assert(rows.contains(new));
                return;
            },
            Placed::After => {
                break;
            },
        }
        at += 1;
    }
    proof {
        text_orders_are_strict();
        assert forall|x: Seq<Seq<char>>, y: Seq<Seq<char>>| row_order()(x, y) == #[trigger] row_less(x, y) by {}
    }
    table.insert(at, row);
    let ghost after = rows_of(table@);
    assert(after =~= rows.insert(at as int, new));
    assert forall|i: int, j: int| 0 <= i < j < after.len() implies row_less(
        #[trigger] after[i],
        #[trigger] after[j],
    ) by {
        if i < at && j == at {
        } else if i == at {
            assert(after[j] == rows[j - 1]);
            if j - 1 > at {
                assert(row_less(rows[at as int], rows[j - 1]));
                assert(row_order()(new, rows[at as int]) && row_order()(rows[at as int], rows[j - 1]));
                assert(row_order()(new, rows[j - 1]));
            }
        } else {
            let i0 = if i < at { i } else { i - 1 };
            let j0 = if j < at { j } else { j - 1 };
            assert(after[i] == rows[i0] && after[j] == rows[j0]);
        }
    }
    assert forall|r: Seq<Seq<char>>| #[trigger] after.contains(r) <==> rows.contains(r) || r == new by {
        if rows.contains(r) {
            let i = choose|i: int| 0 <= i < rows.len() && rows[i] == r;
            let k = if i < at { i } else { i + 1 };
            assert(after[k] == r);
        }
        if r == new {
            assert(after[at as int] == new);
        }
        if after.contains(r) && r != new {
            let k = choose|k: int| 0 <= k < after.len() && after[k] == r;
            let i = if k < at { k } else { k - 1 };
            assert(rows[i] == r);
        }
    }
}

/// `k` is where two sequences first part: they agree before it, and there the
/// first has ended, or has the smaller item.
pub open spec fn parts_at<T>(less: spec_fn(T, T) -> bool, a: Seq<T>, b: Seq<T>, k: int) -> bool {
    &&& 0 <= k <= a.len() && k < b.len()
    &&& forall|i: int| 0 <= i < k ==> #[trigger] a[i] == b[i]
    &&& k == a.len() || (a[k] != b[k] && less(a[k], b[k]))
}

/// One sequence comes before another exactly if, where they first part, it has
/// ended or has the smaller item.
pub proof fn the_first_difference_decides<T>(less: spec_fn(T, T) -> bool, a: Seq<T>, b: Seq<T>)
    ensures
        lex_less(less, a, b) <==> exists|k: int| #[trigger] parts_at(less, a, b, k),
    decreases b.len(),
{
    if b.len() > 0 && a.len() > 0 && a[0] == b[0] {
        let ra = a.drop_first();
        let rb = b.drop_first();
        the_first_difference_decides(less, ra, rb);
        if lex_less(less, a, b) {
            let k = choose|k: int| #[trigger] parts_at(less, ra, rb, k);
            assert forall|i: int| 0 <= i < k + 1 implies #[trigger] a[i] == b[i] by {
                if i > 0 {
                    assert(ra[i - 1] == rb[i - 1]);
                }
            }
            assert(parts_at(less, a, b, k + 1));
        }
        if exists|k: int| #[trigger] parts_at(less, a, b, k) {
            let k = choose|k: int| #[trigger] parts_at(less, a, b, k);
            assert(k > 0);
            assert forall|i: int| 0 <= i < k - 1 implies #[trigger] ra[i] == rb[i] by {
                assert(a[i + 1] == b[i + 1]);
            }
            assert(parts_at(less, ra, rb, k - 1));
        }
    } else if b.len() > 0 {
        if lex_less(less, a, b) {
            assert(parts_at(less, a, b, 0));
        }
        if exists|k: int| #[trigger] parts_at(less, a, b, k) {
            let k = choose|k: int| #[trigger] parts_at(less, a, b, k);
            if k > 0 {
                assert(a[0] == b[0]);
            }
        }
    }
}

/// The first text has ended where they part, or has the smaller character.
pub open spec fn texts_part_at(a: Seq<char>, b: Seq<char>, k: int) -> bool {
    &&& 0 <= k <= a.len() && k < b.len()
    &&& forall|i: int| 0 <= i < k ==> #[trigger] a[i] == b[i]
    &&& k == a.len() || a[k] < b[k]
}

/// A text comes before another exactly if it has ended where they first part,
/// or has the smaller character there.
pub proof fn texts_are_ordered_by_their_first_difference(a: Seq<char>, b: Seq<char>)
    ensures
        text_less(a, b) <==> exists|k: int| #[trigger] texts_part_at(a, b, k),
{
    the_first_difference_decides(char_order(), a, b);
    if text_less(a, b) {
        let k = choose|k: int| #[trigger] parts_at(char_order(), a, b, k);
        assert(texts_part_at(a, b, k));
    }
    if exists|k: int| #[trigger] texts_part_at(a, b, k) {
        let k = choose|k: int| #[trigger] texts_part_at(a, b, k);
        assert(parts_at(char_order(), a, b, k));
    }
}

/// Rows are in order by the first text in which they differ.
pub proof fn rows_are_ordered_by_their_first_difference(
    rows: Seq<Seq<Seq<char>>>,
    i: int,
    j: int,
) -> (k: int)
    requires
        strictly_sorted(rows),
        0 <= i < j < rows.len(),
    ensures
        0 <= k <= rows[i].len() && k < rows[j].len(),
        forall|t: int| 0 <= t < k ==> #[trigger] rows[i][t] == rows[j][t],
        k == rows[i].len() || exists|m: int| #[trigger] texts_part_at(rows[i][k], rows[j][k], m),
{
    the_first_difference_decides(text_order(), rows[i], rows[j]);
    let k = choose|k: int| #[trigger] parts_at(text_order(), rows[i], rows[j], k);
    if k < rows[i].len() {
        texts_are_ordered_by_their_first_difference(rows[i][k], rows[j][k]);
    }
    k
}

} // verus!
