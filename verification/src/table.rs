//! Row-store tables and the durable database image.
//!
//! A [`Table`] is a named collection of records kept strictly sorted by
//! byte-lexicographic key order, so a forward scan yields keys ascending. A
//! [`Database`] is the set of tables with pairwise distinct names: the plain
//! value that stands for everything a connection's storage durably holds.
//!
//! The specification level works on sequences of [`RecordV`]: `lookup`,
//! `upsert` and `remove_key` say what each mutation does to the rows, and
//! `next_idx` / `prev_idx` say where a scan moves from a position.

use vstd::prelude::*;
use crate::order::byte_eq;
use crate::order::byte_lt;
use crate::order::lex_lt;
use crate::order::lemma_lex_irrefl;
use crate::order::lemma_lex_trans;
use crate::order::lemma_lex_trichotomy;

verus! {

/// One record: a key and its value, both raw bytes.
#[derive(Debug)]
pub struct Record {
    pub key: Vec<u8>,
    pub value: Vec<u8>,
}

/// The mathematical value of a record.
#[verifier::ext_equal]
pub struct RecordV {
    pub key: Seq<u8>,
    pub value: Seq<u8>,
}

impl View for Record {
    type V = RecordV;

    open spec fn view(&self) -> RecordV {
        RecordV { key: self.key@, value: self.value@ }
    }
}

/// A named table: rows sorted strictly ascending by key.
#[derive(Debug)]
pub struct Table {
    pub name: Vec<u8>,
    pub rows: Vec<Record>,
}

/// The mathematical value of a table.
#[verifier::ext_equal]
pub struct TableV {
    pub name: Seq<u8>,
    pub rows: Seq<RecordV>,
}

impl View for Table {
    type V = TableV;

    open spec fn view(&self) -> TableV {
        TableV { name: self.name@, rows: self.rows@.map_values(|r: Record| r@) }
    }
}

/// The durable image of a database: every table it holds.
#[derive(Debug)]
pub struct Database {
    pub tables: Vec<Table>,
}

impl View for Database {
    type V = Seq<TableV>;

    open spec fn view(&self) -> Seq<TableV> {
        self.tables@.map_values(|t: Table| t@)
    }
}

/// Rows are strictly ascending in the key order.
pub open spec fn rows_sorted(rows: Seq<RecordV>) -> bool {
    forall|i: int, j: int|
        0 <= i < j < rows.len() ==> lex_lt(rows[i].key, rows[j].key)
}

/// Every table is sorted and no two tables share a name.
pub open spec fn db_wf(tables: Seq<TableV>) -> bool {
    &&& forall|i: int| 0 <= i < tables.len() ==> rows_sorted(#[trigger] tables[i].rows)
    &&& forall|i: int, j: int|
        0 <= i < j < tables.len() ==> tables[i].name != tables[j].name
}

/// The value stored under `k`, taking the first matching row.
pub open spec fn lookup(rows: Seq<RecordV>, k: Seq<u8>) -> Option<Seq<u8>>
    decreases rows.len(),
{
    if rows.len() == 0 {
        None
    } else if rows[0].key == k {
        Some(rows[0].value)
    } else {
        lookup(rows.skip(1), k)
    }
}

/// The first index holding key `k`, or `-1` when no row does.
pub open spec fn row_idx(rows: Seq<RecordV>, k: Seq<u8>) -> int
    decreases rows.len(),
{
    if rows.len() == 0 {
        -1
    } else if rows[0].key == k {
        0
    } else if row_idx(rows.skip(1), k) == -1 {
        -1
    } else {
        1 + row_idx(rows.skip(1), k)
    }
}

/// The number of rows whose key comes before `k`: where an insertion of `k`
/// lands in sorted rows.
pub open spec fn lb_idx(rows: Seq<RecordV>, k: Seq<u8>) -> int
    decreases rows.len(),
{
    if rows.len() == 0 {
        0
    } else if lex_lt(rows[0].key, k) {
        1 + lb_idx(rows.skip(1), k)
    } else {
        0
    }
}

/// Rows after storing `v` under `k`: an existing row for `k` is overwritten,
/// otherwise the record enters at its sorted place.
pub open spec fn upsert(rows: Seq<RecordV>, k: Seq<u8>, v: Seq<u8>) -> Seq<RecordV>
    decreases rows.len(),
{
    if rows.len() == 0 {
        seq![RecordV { key: k, value: v }]
    } else if lex_lt(k, rows[0].key) {
        seq![RecordV { key: k, value: v }] + rows
    } else if rows[0].key == k {
        seq![RecordV { key: k, value: v }] + rows.skip(1)
    } else {
        seq![rows[0]] + upsert(rows.skip(1), k, v)
    }
}

/// Rows after removing the row keyed `k`, if one is there.
pub open spec fn remove_key(rows: Seq<RecordV>, k: Seq<u8>) -> Seq<RecordV>
    decreases rows.len(),
{
    if rows.len() == 0 {
        rows
    } else if rows[0].key == k {
        rows.skip(1)
    } else {
        seq![rows[0]] + remove_key(rows.skip(1), k)
    }
}

/// Whether a scan standing at `pos` may move onto a row keyed `k` going
/// forward: any row from the start, only strictly greater keys afterwards.
pub open spec fn above(pos: Option<Seq<u8>>, k: Seq<u8>) -> bool {
    match pos {
        None => true,
        Some(p) => lex_lt(p, k),
    }
}

/// The backward counterpart of `above`.
pub open spec fn below(pos: Option<Seq<u8>>, k: Seq<u8>) -> bool {
    match pos {
        None => true,
        Some(p) => lex_lt(k, p),
    }
}

/// The first index a forward step from `pos` reaches, or `-1` at the end.
pub open spec fn next_idx(rows: Seq<RecordV>, pos: Option<Seq<u8>>) -> int
    decreases rows.len(),
{
    if rows.len() == 0 {
        -1
    } else if above(pos, rows[0].key) {
        0
    } else if next_idx(rows.skip(1), pos) == -1 {
        -1
    } else {
        1 + next_idx(rows.skip(1), pos)
    }
}

/// The last index a backward step from `pos` reaches, or `-1` at the start.
pub open spec fn prev_idx(rows: Seq<RecordV>, pos: Option<Seq<u8>>) -> int
    decreases rows.len(),
{
    if rows.len() == 0 {
        -1
    } else if prev_idx(rows.skip(1), pos) >= 0 {
        1 + prev_idx(rows.skip(1), pos)
    } else if below(pos, rows[0].key) {
        0
    } else {
        -1
    }
}

/// The first index of the table named `name`, or `-1`.
pub open spec fn table_idx(tables: Seq<TableV>, name: Seq<u8>) -> int
    decreases tables.len(),
{
    if tables.len() == 0 {
        -1
    } else if tables[0].name == name {
        0
    } else if table_idx(tables.skip(1), name) == -1 {
        -1
    } else {
        1 + table_idx(tables.skip(1), name)
    }
}

/// A sorted tail stays sorted.
pub proof fn lemma_sorted_skip(rows: Seq<RecordV>)
    requires
        rows_sorted(rows),
        rows.len() > 0,
    ensures
        rows_sorted(rows.skip(1)),
{
    assert forall|i: int, j: int| 0 <= i < j < rows.skip(1).len() implies lex_lt(
        rows.skip(1)[i].key,
        rows.skip(1)[j].key,
    ) by {
        assert(rows.skip(1)[i] == rows[i + 1]);
        assert(rows.skip(1)[j] == rows[j + 1]);
    }
}

/// In sorted rows, index order and key order agree.
pub proof fn lemma_sorted_index_order(rows: Seq<RecordV>, i: int, j: int)
    requires
        rows_sorted(rows),
        0 <= i < rows.len(),
        0 <= j < rows.len(),
    ensures
        (i < j) == lex_lt(rows[i].key, rows[j].key),
        (i == j) == (rows[i].key == rows[j].key),
{
    lemma_lex_trichotomy(rows[i].key, rows[j].key);
    if i < j {
        assert(lex_lt(rows[i].key, rows[j].key));
    } else if j < i {
        assert(lex_lt(rows[j].key, rows[i].key));
    }
}

/// What `row_idx` finds and what `lookup` returns agree.
pub proof fn lemma_row_idx(rows: Seq<RecordV>, k: Seq<u8>)
    ensures
        row_idx(rows, k) >= -1,
        row_idx(rows, k) == -1 ==> (forall|i: int|
            0 <= i < rows.len() ==> (#[trigger] rows[i]).key != k) && lookup(rows, k) is None,
        row_idx(rows, k) >= 0 ==> 0 <= row_idx(rows, k) < rows.len() && rows[row_idx(
            rows,
            k,
        )].key == k && lookup(rows, k) == Some(rows[row_idx(rows, k)].value) && (forall|j: int|
            0 <= j < row_idx(rows, k) ==> (#[trigger] rows[j]).key != k),
    decreases rows.len(),
{
    if rows.len() > 0 && rows[0].key != k {
        lemma_row_idx(rows.skip(1), k);
        if row_idx(rows.skip(1), k) == -1 {
            assert(row_idx(rows, k) == -1);
            assert forall|i: int| 0 <= i < rows.len() implies (#[trigger] rows[i]).key != k by {
                if i > 0 {
                    assert(rows.skip(1)[i - 1] == rows[i]);
                    assert(rows.skip(1)[i - 1].key != k);
                }
            }
        } else {
            assert(row_idx(rows, k) == 1 + row_idx(rows.skip(1), k));
            assert(rows.skip(1)[row_idx(rows.skip(1), k)] == rows[row_idx(rows, k)]);
            assert forall|j: int| 0 <= j < row_idx(rows, k) implies (#[trigger] rows[j]).key
                != k by {
                if j > 0 {
                    assert(rows.skip(1)[j - 1] == rows[j]);
                    assert(rows.skip(1)[j - 1].key != k);
                }
            }
        }
    }
}

/// `lb_idx` splits sorted rows into keys before `k` and keys not before it.
pub proof fn lemma_lb_idx(rows: Seq<RecordV>, k: Seq<u8>)
    requires
        rows_sorted(rows),
    ensures
        0 <= lb_idx(rows, k) <= rows.len(),
        forall|j: int| 0 <= j < lb_idx(rows, k) ==> lex_lt((#[trigger] rows[j]).key, k),
        forall|j: int|
            lb_idx(rows, k) <= j < rows.len() ==> !lex_lt((#[trigger] rows[j]).key, k),
    decreases rows.len(),
{
    if rows.len() > 0 {
        lemma_sorted_skip(rows);
        lemma_lb_idx(rows.skip(1), k);
        if lex_lt(rows[0].key, k) {
            assert forall|j: int| 0 <= j < lb_idx(rows, k) implies lex_lt(
                (#[trigger] rows[j]).key,
                k,
            ) by {
                if j > 0 {
                    assert(rows.skip(1)[j - 1] == rows[j]);
                }
            }
            assert forall|j: int| lb_idx(rows, k) <= j < rows.len() implies !lex_lt(
                (#[trigger] rows[j]).key,
                k,
            ) by {
                assert(rows.skip(1)[j - 1] == rows[j]);
            }
        } else {
            assert forall|j: int| 0 <= j < rows.len() implies !lex_lt(
                (#[trigger] rows[j]).key,
                k,
            ) by {
                if j > 0 {
                    assert(rows.skip(1)[j - 1] == rows[j]);
                    if lex_lt(rows[j].key, k) {
                        lemma_lex_trans(rows[0].key, rows[j].key, k);
                    }
                } else {
                    lemma_lex_trichotomy(rows[0].key, k);
                }
            }
        }
    }
}

/// In sorted rows, `upsert` is an overwrite in place or an insertion at the
/// sorted position.
pub proof fn lemma_upsert_shape(rows: Seq<RecordV>, k: Seq<u8>, v: Seq<u8>)
    requires
        rows_sorted(rows),
    ensures
        row_idx(rows, k) >= 0 ==> upsert(rows, k, v) =~~= rows.update(
            row_idx(rows, k),
            RecordV { key: k, value: v },
        ),
        row_idx(rows, k) == -1 ==> upsert(rows, k, v) =~~= rows.insert(
            lb_idx(rows, k),
            RecordV { key: k, value: v },
        ),
    decreases rows.len(),
{
    lemma_row_idx(rows, k);
    lemma_lb_idx(rows, k);
    if rows.len() == 0 {
        assert(upsert(rows, k, v) =~~= rows.insert(0, RecordV { key: k, value: v }));
    } else if lex_lt(k, rows[0].key) {
        lemma_lex_trichotomy(k, rows[0].key);
        assert(row_idx(rows, k) != 0);
        if row_idx(rows, k) > 0 {
            lemma_sorted_index_order(rows, 0, row_idx(rows, k));
            lemma_lex_trans(k, rows[0].key, rows[row_idx(rows, k)].key);
            lemma_lex_irrefl(k);
        }
        assert(lb_idx(rows, k) == 0);
        assert(upsert(rows, k, v) =~~= rows.insert(0, RecordV { key: k, value: v }));
    } else if rows[0].key == k {
        assert(upsert(rows, k, v) =~~= rows.update(0, RecordV { key: k, value: v }));
    } else {
        lemma_sorted_skip(rows);
        lemma_upsert_shape(rows.skip(1), k, v);
        lemma_row_idx(rows.skip(1), k);
        lemma_lb_idx(rows.skip(1), k);
        lemma_lex_trichotomy(k, rows[0].key);
        assert(lex_lt(rows[0].key, k));
        if row_idx(rows, k) >= 0 {
            assert(upsert(rows, k, v) =~~= rows.update(
                row_idx(rows, k),
                RecordV { key: k, value: v },
            ));
        } else {
            assert(lb_idx(rows, k) == 1 + lb_idx(rows.skip(1), k));
            assert(upsert(rows, k, v) =~~= rows.insert(
                lb_idx(rows, k),
                RecordV { key: k, value: v },
            ));
        }
    }
}

/// Storing under `k` keeps rows sorted, stores exactly `v` under `k`, and
/// leaves every other key's binding unchanged.
pub proof fn lemma_upsert_props(rows: Seq<RecordV>, k: Seq<u8>, v: Seq<u8>)
    requires
        rows_sorted(rows),
    ensures
        rows_sorted(upsert(rows, k, v)),
        lookup(upsert(rows, k, v), k) == Some(v),
        forall|k2: Seq<u8>| k2 != k ==> lookup(upsert(rows, k, v), k2) == lookup(rows, k2),
        row_idx(rows, k) >= 0 ==> upsert(rows, k, v).len() == rows.len(),
        row_idx(rows, k) == -1 ==> upsert(rows, k, v).len() == rows.len() + 1,
    decreases rows.len(),
{
    if rows.len() == 0 {
        assert(upsert(rows, k, v)[0].key == k);
        assert(upsert(rows, k, v).skip(1) =~~= Seq::<RecordV>::empty());
        assert forall|k2: Seq<u8>| k2 != k implies lookup(upsert(rows, k, v), k2) == lookup(
            rows,
            k2,
        ) by {
            assert(lookup(upsert(rows, k, v).skip(1), k2) is None);
        }
    } else if lex_lt(k, rows[0].key) {
        let out = upsert(rows, k, v);
        assert(out =~~= seq![RecordV { key: k, value: v }] + rows);
        assert(out.skip(1) =~~= rows);
        assert forall|i: int, j: int| 0 <= i < j < out.len() implies lex_lt(
            out[i].key,
            out[j].key,
        ) by {
            if i == 0 {
                if j > 1 {
                    lemma_lex_trans(k, rows[0].key, rows[j - 1].key);
                }
            }
        }
        lemma_row_idx(rows, k);
        if row_idx(rows, k) >= 0 {
            lemma_lex_trichotomy(k, rows[0].key);
            if row_idx(rows, k) > 0 {
                lemma_sorted_index_order(rows, 0, row_idx(rows, k));
                lemma_lex_trans(k, rows[0].key, rows[row_idx(rows, k)].key);
            }
            lemma_lex_irrefl(k);
        }
    } else if rows[0].key == k {
        let out = upsert(rows, k, v);
        lemma_sorted_skip(rows);
        assert(out.skip(1) =~~= rows.skip(1));
        assert forall|i: int, j: int| 0 <= i < j < out.len() implies lex_lt(
            out[i].key,
            out[j].key,
        ) by {
            assert(out[j] == rows[j]);
            if i > 0 {
                assert(out[i] == rows[i]);
            }
        }
        assert forall|k2: Seq<u8>| k2 != k implies lookup(out, k2) == lookup(rows, k2) by {
        }
        lemma_row_idx(rows, k);
    } else {
        let out = upsert(rows, k, v);
        lemma_sorted_skip(rows);
        lemma_upsert_props(rows.skip(1), k, v);
        lemma_lex_trichotomy(k, rows[0].key);
        assert(lex_lt(rows[0].key, k));
        let tail = upsert(rows.skip(1), k, v);
        assert(out =~~= seq![rows[0]] + tail);
        assert(out.skip(1) =~~= tail);
        lemma_upsert_keys(rows.skip(1), k, v, rows[0].key);
        assert forall|i: int, j: int| 0 <= i < j < out.len() implies lex_lt(
            out[i].key,
            out[j].key,
        ) by {
            if i == 0 {
                assert(out[j] == tail[j - 1]);
            } else {
                assert(out[i] == tail[i - 1]);
                assert(out[j] == tail[j - 1]);
            }
        }
        assert(lookup(out, k) == lookup(tail, k));
        assert forall|k2: Seq<u8>| k2 != k implies lookup(out, k2) == lookup(rows, k2) by {
            assert(out[0] == rows[0]);
            assert(out.skip(1) == tail);
            if out[0].key == k2 {
                assert(lookup(out, k2) == Some(out[0].value));
                assert(lookup(rows, k2) == Some(rows[0].value));
            } else {
                assert(lookup(out, k2) == lookup(tail, k2));
                assert(lookup(tail, k2) == lookup(rows.skip(1), k2));
                assert(lookup(rows, k2) == lookup(rows.skip(1), k2));
            }
        }
        lemma_row_idx(rows, k);
        lemma_row_idx(rows.skip(1), k);
    }
}

/// Every key in the stored rows is `k` itself or a key that was there, so a
/// lower bound below both stays a lower bound.
proof fn lemma_upsert_keys(rows: Seq<RecordV>, k: Seq<u8>, v: Seq<u8>, lo: Seq<u8>)
    requires
        forall|i: int| 0 <= i < rows.len() ==> lex_lt(lo, (#[trigger] rows[i]).key),
        lex_lt(lo, k),
    ensures
        forall|i: int|
            0 <= i < upsert(rows, k, v).len() ==> lex_lt(lo, (#[trigger] upsert(rows, k, v)[i]).key),
    decreases rows.len(),
{
    if rows.len() == 0 {
    } else if lex_lt(k, rows[0].key) {
        assert forall|i: int| 0 <= i < upsert(rows, k, v).len() implies lex_lt(
            lo,
            (#[trigger] upsert(rows, k, v)[i]).key,
        ) by {
            if i > 0 {
                assert(upsert(rows, k, v)[i] == rows[i - 1]);
            }
        }
    } else if rows[0].key == k {
        assert forall|i: int| 0 <= i < upsert(rows, k, v).len() implies lex_lt(
            lo,
            (#[trigger] upsert(rows, k, v)[i]).key,
        ) by {
            if i > 0 {
                assert(upsert(rows, k, v)[i] == rows.skip(1)[i - 1]);
                assert(rows.skip(1)[i - 1] == rows[i]);
            }
        }
    } else {
        assert forall|i: int| 0 <= i < rows.skip(1).len() implies lex_lt(
            lo,
            (#[trigger] rows.skip(1)[i]).key,
        ) by {
            assert(rows.skip(1)[i] == rows[i + 1]);
        }
        lemma_upsert_keys(rows.skip(1), k, v, lo);
        assert forall|i: int| 0 <= i < upsert(rows, k, v).len() implies lex_lt(
            lo,
            (#[trigger] upsert(rows, k, v)[i]).key,
        ) by {
            if i > 0 {
                assert(upsert(rows, k, v)[i] == upsert(rows.skip(1), k, v)[i - 1]);
            }
        }
    }
}

/// In sorted rows, removing `k` deletes its row or leaves the rows as they
/// were.
pub proof fn lemma_remove_shape(rows: Seq<RecordV>, k: Seq<u8>)
    requires
        rows_sorted(rows),
    ensures
        row_idx(rows, k) >= 0 ==> remove_key(rows, k) =~~= rows.remove(row_idx(rows, k)),
        row_idx(rows, k) == -1 ==> remove_key(rows, k) =~~= rows,
    decreases rows.len(),
{
    lemma_row_idx(rows, k);
    if rows.len() == 0 {
    } else if rows[0].key == k {
        assert(remove_key(rows, k) =~~= rows.remove(0));
    } else {
        lemma_sorted_skip(rows);
        lemma_remove_shape(rows.skip(1), k);
        lemma_row_idx(rows.skip(1), k);
        if row_idx(rows, k) >= 0 {
            assert(remove_key(rows, k) =~~= rows.remove(row_idx(rows, k)));
        } else {
            assert(remove_key(rows, k) =~~= rows);
        }
    }
}

/// Removing `k` keeps rows sorted, unbinds `k`, and leaves every other
/// key's binding unchanged.
pub proof fn lemma_remove_props(rows: Seq<RecordV>, k: Seq<u8>)
    requires
        rows_sorted(rows),
    ensures
        rows_sorted(remove_key(rows, k)),
        lookup(remove_key(rows, k), k) is None,
        forall|k2: Seq<u8>| k2 != k ==> lookup(remove_key(rows, k), k2) == lookup(rows, k2),
    decreases rows.len(),
{
    if rows.len() == 0 {
    } else if rows[0].key == k {
        lemma_sorted_skip(rows);
        lemma_row_idx(rows.skip(1), k);
        if row_idx(rows.skip(1), k) >= 0 {
            let ri = row_idx(rows.skip(1), k);
            assert(rows.skip(1)[ri] == rows[ri + 1]);
            assert(rows[ri + 1].key == k);
            lemma_sorted_index_order(rows, 0, ri + 1);
            assert(lex_lt(rows[0].key, rows[ri + 1].key));
            lemma_lex_irrefl(k);
            assert(false);
        }
        assert(lookup(rows.skip(1), k) is None);
        assert(remove_key(rows, k) == rows.skip(1));
        assert forall|k2: Seq<u8>| k2 != k implies lookup(remove_key(rows, k), k2) == lookup(
            rows,
            k2,
        ) by {
            assert(lookup(rows, k2) == lookup(rows.skip(1), k2));
        }
    } else {
        let out = remove_key(rows, k);
        lemma_sorted_skip(rows);
        lemma_remove_props(rows.skip(1), k);
        let tail = remove_key(rows.skip(1), k);
        assert(out =~~= seq![rows[0]] + tail);
        assert(out.skip(1) =~~= tail);
        lemma_remove_keys(rows.skip(1), k, rows[0].key);
        assert forall|i: int, j: int| 0 <= i < j < out.len() implies lex_lt(
            out[i].key,
            out[j].key,
        ) by {
            if i == 0 {
                assert(out[j] == tail[j - 1]);
            } else {
                assert(out[i] == tail[i - 1]);
                assert(out[j] == tail[j - 1]);
            }
        }
        assert(out[0] == rows[0]);
        lemma_lex_trichotomy(rows[0].key, k);
        assert(lookup(out, k) == lookup(tail, k));
        assert forall|k2: Seq<u8>| k2 != k implies lookup(out, k2) == lookup(rows, k2) by {
            assert(out[0] == rows[0]);
            assert(out.skip(1) == tail);
            if out[0].key == k2 {
                assert(lookup(out, k2) == Some(out[0].value));
                assert(lookup(rows, k2) == Some(rows[0].value));
            } else {
                assert(lookup(out, k2) == lookup(tail, k2));
                assert(lookup(tail, k2) == lookup(rows.skip(1), k2));
                assert(lookup(rows, k2) == lookup(rows.skip(1), k2));
            }
        }
    }
}

/// Removal never introduces a key, so a strict lower bound stays one.
proof fn lemma_remove_keys(rows: Seq<RecordV>, k: Seq<u8>, lo: Seq<u8>)
    requires
        forall|i: int| 0 <= i < rows.len() ==> lex_lt(lo, (#[trigger] rows[i]).key),
    ensures
        forall|i: int|
            0 <= i < remove_key(rows, k).len() ==> lex_lt(
                lo,
                (#[trigger] remove_key(rows, k)[i]).key,
            ),
    decreases rows.len(),
{
    if rows.len() == 0 {
    } else if rows[0].key == k {
        assert forall|i: int| 0 <= i < remove_key(rows, k).len() implies lex_lt(
            lo,
            (#[trigger] remove_key(rows, k)[i]).key,
        ) by {
            assert(remove_key(rows, k)[i] == rows[i + 1]);
        }
    } else {
        assert forall|i: int| 0 <= i < rows.skip(1).len() implies lex_lt(
            lo,
            (#[trigger] rows.skip(1)[i]).key,
        ) by {
            assert(rows.skip(1)[i] == rows[i + 1]);
        }
        lemma_remove_keys(rows.skip(1), k, lo);
        assert forall|i: int| 0 <= i < remove_key(rows, k).len() implies lex_lt(
            lo,
            (#[trigger] remove_key(rows, k)[i]).key,
        ) by {
            if i > 0 {
                assert(remove_key(rows, k)[i] == remove_key(rows.skip(1), k)[i - 1]);
            }
        }
    }
}

/// `next_idx` finds the first index a forward step from `pos` may reach.
pub proof fn lemma_next_idx(rows: Seq<RecordV>, pos: Option<Seq<u8>>)
    ensures
        next_idx(rows, pos) >= -1,
        next_idx(rows, pos) == -1 ==> forall|i: int|
            0 <= i < rows.len() ==> !above(pos, (#[trigger] rows[i]).key),
        next_idx(rows, pos) >= 0 ==> 0 <= next_idx(rows, pos) < rows.len() && above(
            pos,
            rows[next_idx(rows, pos)].key,
        ) && (forall|j: int|
            0 <= j < next_idx(rows, pos) ==> !above(pos, (#[trigger] rows[j]).key)),
    decreases rows.len(),
{
    if rows.len() > 0 && !above(pos, rows[0].key) {
        lemma_next_idx(rows.skip(1), pos);
        if next_idx(rows.skip(1), pos) == -1 {
            assert(next_idx(rows, pos) == -1);
            assert forall|i: int| 0 <= i < rows.len() implies !above(
                pos,
                (#[trigger] rows[i]).key,
            ) by {
                if i > 0 {
                    assert(rows.skip(1)[i - 1] == rows[i]);
                    assert(!above(pos, rows.skip(1)[i - 1].key));
                }
            }
        } else {
            assert(next_idx(rows, pos) == 1 + next_idx(rows.skip(1), pos));
            assert(rows.skip(1)[next_idx(rows.skip(1), pos)] == rows[next_idx(rows, pos)]);
            assert forall|j: int| 0 <= j < next_idx(rows, pos) implies !above(
                pos,
                (#[trigger] rows[j]).key,
            ) by {
                if j > 0 {
                    assert(rows.skip(1)[j - 1] == rows[j]);
                    assert(!above(pos, rows.skip(1)[j - 1].key));
                }
            }
        }
    }
}

/// `prev_idx` finds the last index a backward step from `pos` may reach.
pub proof fn lemma_prev_idx(rows: Seq<RecordV>, pos: Option<Seq<u8>>)
    ensures
        prev_idx(rows, pos) >= -1,
        prev_idx(rows, pos) == -1 ==> forall|i: int|
            0 <= i < rows.len() ==> !below(pos, (#[trigger] rows[i]).key),
        prev_idx(rows, pos) >= 0 ==> 0 <= prev_idx(rows, pos) < rows.len() && below(
            pos,
            rows[prev_idx(rows, pos)].key,
        ) && (forall|j: int|
            prev_idx(rows, pos) < j < rows.len() ==> !below(pos, (#[trigger] rows[j]).key)),
    decreases rows.len(),
{
    if rows.len() > 0 {
        lemma_prev_idx(rows.skip(1), pos);
        if prev_idx(rows.skip(1), pos) >= 0 {
            assert(prev_idx(rows, pos) == 1 + prev_idx(rows.skip(1), pos));
            assert(rows.skip(1)[prev_idx(rows.skip(1), pos)] == rows[prev_idx(rows, pos)]);
            assert forall|j: int| prev_idx(rows, pos) < j < rows.len() implies !below(
                pos,
                (#[trigger] rows[j]).key,
            ) by {
                assert(rows.skip(1)[j - 1] == rows[j]);
                assert(!below(pos, rows.skip(1)[j - 1].key));
            }
        } else if below(pos, rows[0].key) {
            assert(prev_idx(rows, pos) == 0);
            assert forall|j: int| 0 < j < rows.len() implies !below(
                pos,
                (#[trigger] rows[j]).key,
            ) by {
                assert(rows.skip(1)[j - 1] == rows[j]);
                assert(!below(pos, rows.skip(1)[j - 1].key));
            }
        } else {
            assert(prev_idx(rows, pos) == -1);
            assert forall|i: int| 0 <= i < rows.len() implies !below(
                pos,
                (#[trigger] rows[i]).key,
            ) by {
                if i > 0 {
                    assert(rows.skip(1)[i - 1] == rows[i]);
                    assert(!below(pos, rows.skip(1)[i - 1].key));
                }
            }
        }
    }
}

/// In sorted rows, stepping forward from the key at `i` reaches `i + 1`, and
/// past the last row reaches the end.
pub proof fn lemma_next_of_member(rows: Seq<RecordV>, i: int)
    requires
        rows_sorted(rows),
        0 <= i < rows.len(),
    ensures
        i + 1 < rows.len() ==> next_idx(rows, Some(rows[i].key)) == i + 1,
        i + 1 == rows.len() ==> next_idx(rows, Some(rows[i].key)) == -1,
{
    let pos = Some(rows[i].key);
    lemma_next_idx(rows, pos);
    if i + 1 < rows.len() {
        assert(above(pos, rows[i + 1].key));
        let n = next_idx(rows, pos);
        if n == -1 {
            assert(!above(pos, rows[i + 1].key));
        } else {
            lemma_sorted_index_order(rows, i, n);
            if n < i + 1 {
                lemma_lex_trichotomy(rows[i].key, rows[n].key);
                assert(false);
            } else if n > i + 1 {
                assert(!above(pos, rows[i + 1].key));
                assert(false);
            }
        }
    } else {
        let n = next_idx(rows, pos);
        if n >= 0 {
            lemma_sorted_index_order(rows, i, n);
            lemma_lex_trichotomy(rows[i].key, rows[n].key);
            assert(false);
        }
    }
}

/// `table_idx` finds the first table bearing a name.
pub proof fn lemma_table_idx(tables: Seq<TableV>, name: Seq<u8>)
    ensures
        table_idx(tables, name) >= -1,
        table_idx(tables, name) == -1 ==> forall|i: int|
            0 <= i < tables.len() ==> (#[trigger] tables[i]).name != name,
        table_idx(tables, name) >= 0 ==> 0 <= table_idx(tables, name) < tables.len() && tables[
            table_idx(tables, name)
        ].name == name && (forall|j: int|
            0 <= j < table_idx(tables, name) ==> (#[trigger] tables[j]).name != name),
    decreases tables.len(),
{
    if tables.len() > 0 && tables[0].name != name {
        lemma_table_idx(tables.skip(1), name);
        if table_idx(tables.skip(1), name) == -1 {
            assert(table_idx(tables, name) == -1);
            assert forall|i: int| 0 <= i < tables.len() implies (#[trigger] tables[i]).name
                != name by {
                if i > 0 {
                    assert(tables.skip(1)[i - 1] == tables[i]);
                    assert(tables.skip(1)[i - 1].name != name);
                }
            }
        } else {
            assert(table_idx(tables, name) == 1 + table_idx(tables.skip(1), name));
            assert(tables.skip(1)[table_idx(tables.skip(1), name)] == tables[table_idx(
                tables,
                name,
            )]);
            assert forall|j: int| 0 <= j < table_idx(tables, name) implies (
            #[trigger] tables[j]).name != name by {
                if j > 0 {
                    assert(tables.skip(1)[j - 1] == tables[j]);
                    assert(tables.skip(1)[j - 1].name != name);
                }
            }
        }
    }
}

/// A stretch of a byte string copied into an owned buffer.
pub(crate) fn copy_bytes_range(s: &[u8], a: usize, b: usize) -> (out: Vec<u8>)
    requires
        a <= b <= s@.len(),
    ensures
        out@ == s@.subrange(a as int, b as int),
{
    let mut out: Vec<u8> = Vec::new();
    let mut i: usize = a;
    while i < b
        invariant
            a <= i <= b <= s@.len(),
            out@ =~= s@.subrange(a as int, i as int),
        decreases b - i,
    {
        out.push(s[i]);
        i = i + 1;
        assert(out@ =~= s@.subrange(a as int, i as int));
    }
    assert(out@ =~= s@.subrange(a as int, b as int));
    out
}

/// A byte string copied into an owned buffer.
pub fn copy_bytes(src: &[u8]) -> (out: Vec<u8>)
    ensures
        out@ == src@,
{
    let mut out: Vec<u8> = Vec::new();
    let mut i: usize = 0;
    while i < src.len()
        invariant
            i <= src@.len(),
            out@ =~= src@.subrange(0, i as int),
        decreases src@.len() - i,
    {
        out.push(src[i]);
        i = i + 1;
        assert(out@ =~= src@.subrange(0, i as int));
    }
    assert(out@ =~= src@);
    out
}

impl Table {
    /// Rows sorted strictly ascending: the table's well-formedness.
    pub open spec fn wf(self) -> bool {
        rows_sorted(self@.rows)
    }

    /// The index of the row keyed `key`, if one is there.
    pub fn find(&self, key: &[u8]) -> (r: Option<usize>)
        ensures
            match r {
                Some(i) => row_idx(self@.rows, key@) == i as int && i < self@.rows.len()
                    && self@.rows[i as int].key == key@,
                None => row_idx(self@.rows, key@) == -1,
            },
    {
        proof {
            lemma_row_idx(self@.rows, key@);
        }
        let n = self.rows.len();
        let mut i: usize = 0;
        while i < n
            invariant
                n == self@.rows.len(),
                i <= n,
                forall|j: int| 0 <= j < i ==> (#[trigger] self@.rows[j]).key != key@,
                row_idx(self@.rows, key@) >= 0 ==> row_idx(self@.rows, key@) >= i,
            decreases n - i,
        {
            proof {
                lemma_row_idx(self@.rows, key@);
            }
            if byte_eq(self.rows[i].key.as_slice(), key) {
                proof {
                    assert(self@.rows[i as int] == self.rows@[i as int]@);
                    assert(self@.rows[i as int].key == key@);
                    lemma_row_idx(self@.rows, key@);
                    if row_idx(self@.rows, key@) == -1 {
                        assert(false);
                    }
                    if row_idx(self@.rows, key@) > i as int {
                        assert(self@.rows[i as int].key != key@);
                        assert(false);
                    }
                    if 0 <= row_idx(self@.rows, key@) < i as int {
                        assert(self@.rows[row_idx(self@.rows, key@)].key != key@);
                        assert(false);
                    }
                    assert(row_idx(self@.rows, key@) == i as int);
                }
                return Some(i);
            }
            i = i + 1;
        }
        None
    }

    /// The value stored under `key`, copied out, if one is there.
    pub fn get(&self, key: &[u8]) -> (r: Option<Vec<u8>>)
        ensures
            match r {
                Some(v) => lookup(self@.rows, key@) == Some(v@),
                None => lookup(self@.rows, key@) is None,
            },
    {
        proof {
            lemma_row_idx(self@.rows, key@);
        }
        match self.find(key) {
            Some(i) => Some(copy_bytes(self.rows[i].value.as_slice())),
            None => None,
        }
    }

    /// Stores `value` under `key`, keeping the rows sorted.
    pub fn upsert(&mut self, key: Vec<u8>, value: Vec<u8>)
        requires
            old(self).wf(),
        ensures
            final(self).wf(),
            final(self)@.name == old(self)@.name,
            final(self)@.rows == upsert(old(self)@.rows, key@, value@),
    {
        proof {
            lemma_upsert_shape(self@.rows, key@, value@);
            lemma_upsert_props(self@.rows, key@, value@);
        }
        match self.find(key.as_slice()) {
            Some(i) => {
                self.rows.set(i, Record { key, value });
                proof {
                    assert(self@.rows =~~= upsert(old(self)@.rows, key@, value@));
                }
            },
            None => {
                let at = self.lower_bound(key.as_slice());
                self.rows.insert(at, Record { key, value });
                proof {
                    assert(self@.rows =~~= upsert(old(self)@.rows, key@, value@));
                }
            },
        }
    }

    /// The number of rows whose key comes before `key`.
    fn lower_bound(&self, key: &[u8]) -> (r: usize)
        requires
            self.wf(),
        ensures
            r as int == lb_idx(self@.rows, key@),
            r <= self@.rows.len(),
    {
        proof {
            lemma_lb_idx(self@.rows, key@);
        }
        let n = self.rows.len();
        let mut i: usize = 0;
        while i < n
            invariant
                self.wf(),
                n == self@.rows.len(),
                i <= n,
                forall|j: int| 0 <= j < i ==> lex_lt((#[trigger] self@.rows[j]).key, key@),
            decreases n - i,
        {
            if !byte_lt(self.rows[i].key.as_slice(), key) {
                proof {
                    lemma_lb_idx(self@.rows, key@);
                    let lb = lb_idx(self@.rows, key@);
                    if lb < i as int {
                        assert(lex_lt(self@.rows[lb].key, key@));
                    }
                    if lb > i as int {
                        assert(lex_lt(self@.rows[i as int].key, key@));
                    }
                }
                return i;
            }
            i = i + 1;
        }
        proof {
            lemma_lb_idx(self@.rows, key@);
            let lb = lb_idx(self@.rows, key@);
            if lb < n as int {
                assert(lex_lt(self@.rows[lb].key, key@));
            }
        }
        n
    }

    /// Removes the row keyed `key`; reports whether one was there.
    pub fn remove(&mut self, key: &[u8]) -> (removed: bool)
        requires
            old(self).wf(),
        ensures
            final(self).wf(),
            final(self)@.name == old(self)@.name,
            final(self)@.rows == remove_key(old(self)@.rows, key@),
            removed == (row_idx(old(self)@.rows, key@) >= 0),
    {
        proof {
            lemma_remove_shape(self@.rows, key@);
            lemma_remove_props(self@.rows, key@);
        }
        match self.find(key) {
            Some(i) => {
                self.rows.remove(i);
                proof {
                    assert(self@.rows =~~= remove_key(old(self)@.rows, key@));
                }
                true
            },
            None => {
                proof {
                    assert(self@.rows =~~= remove_key(old(self)@.rows, key@));
                }
                false
            },
        }
    }

    /// The index a forward step from `pos` reaches.
    pub fn next_after(&self, pos: &Option<Vec<u8>>) -> (r: Option<usize>)
        ensures
            match r {
                Some(i) => next_idx(self@.rows, opt_bytes(*pos)) == i as int && i
                    < self@.rows.len(),
                None => next_idx(self@.rows, opt_bytes(*pos)) == -1,
            },
    {
        let ghost p = opt_bytes(*pos);
        proof {
            lemma_next_idx(self@.rows, p);
        }
        let n = self.rows.len();
        let mut i: usize = 0;
        while i < n
            invariant
                n == self@.rows.len(),
                i <= n,
                p == opt_bytes(*pos),
                forall|j: int| 0 <= j < i ==> !above(p, (#[trigger] self@.rows[j]).key),
            decreases n - i,
        {
            let hit = match pos {
                None => true,
                Some(pk) => byte_lt(pk.as_slice(), self.rows[i].key.as_slice()),
            };
            if hit {
                proof {
                    assert(self@.rows[i as int] == self.rows@[i as int]@);
                    assert(above(p, self@.rows[i as int].key));
                    lemma_next_idx(self@.rows, p);
                    let x = next_idx(self@.rows, p);
                    if x == -1 {
                        assert(!above(p, self@.rows[i as int].key));
                        assert(false);
                    }
                    if x > i as int {
                        assert(!above(p, self@.rows[i as int].key));
                        assert(false);
                    }
                    if 0 <= x < i as int {
                        assert(!above(p, self@.rows[x].key));
                        assert(false);
                    }
                    assert(x == i as int);
                }
                return Some(i);
            }
            proof {
                assert(self@.rows[i as int] == self.rows@[i as int]@);
                assert(!above(p, self@.rows[i as int].key));
            }
            i = i + 1;
        }
        proof {
            lemma_next_idx(self@.rows, p);
            let x = next_idx(self@.rows, p);
            if x >= 0 {
                assert(!above(p, self@.rows[x].key));
                assert(false);
            }
        }
        None
    }

    /// The index a backward step from `pos` reaches.
    pub fn prev_before(&self, pos: &Option<Vec<u8>>) -> (r: Option<usize>)
        ensures
            match r {
                Some(i) => prev_idx(self@.rows, opt_bytes(*pos)) == i as int && i
                    < self@.rows.len(),
                None => prev_idx(self@.rows, opt_bytes(*pos)) == -1,
            },
    {
        let ghost p = opt_bytes(*pos);
        proof {
            lemma_prev_idx(self@.rows, p);
        }
        let n = self.rows.len();
        let mut i: usize = n;
        while i > 0
            invariant
                n == self@.rows.len(),
                i <= n,
                p == opt_bytes(*pos),
                forall|j: int| i <= j < n ==> !below(p, (#[trigger] self@.rows[j]).key),
            decreases i,
    {
            let j = i - 1;
            let hit = match pos {
                None => true,
                Some(pk) => byte_lt(self.rows[j].key.as_slice(), pk.as_slice()),
            };
            if hit {
                proof {
                    assert(self@.rows[j as int] == self.rows@[j as int]@);
                    assert(below(p, self@.rows[j as int].key));
                    lemma_prev_idx(self@.rows, p);
                    let x = prev_idx(self@.rows, p);
                    if x == -1 {
                        assert(!below(p, self@.rows[j as int].key));
                        assert(false);
                    }
                    if x > j as int {
                        assert(!below(p, self@.rows[x].key));
                        assert(false);
                    }
                    if 0 <= x < j as int {
                        assert(!below(p, self@.rows[j as int].key));
                        assert(false);
                    }
                    assert(x == j as int);
                }
                return Some(j);
            }
            proof {
                assert(self@.rows[j as int] == self.rows@[j as int]@);
                assert(!below(p, self@.rows[j as int].key));
            }
            i = j;
        }
        proof {
            lemma_prev_idx(self@.rows, p);
            let x = prev_idx(self@.rows, p);
            if x >= 0 {
                assert(!below(p, self@.rows[x].key));
                assert(false);
            }
        }
        None
    }

    /// An independent copy of the table.
    pub fn duplicate(&self) -> (out: Table)
        ensures
            out@ == self@,
    {
        let mut rows: Vec<Record> = Vec::new();
        let mut i: usize = 0;
        while i < self.rows.len()
            invariant
                i <= self@.rows.len(),
                rows@.map_values(|r: Record| r@) =~~= self@.rows.subrange(0, i as int),
            decreases self@.rows.len() - i,
        {
            let r = Record {
                key: copy_bytes(self.rows[i].key.as_slice()),
                value: copy_bytes(self.rows[i].value.as_slice()),
            };
            let ghost rv = r@;
            let ghost mprev = rows@.map_values(|rr: Record| rr@);
            proof {
                assert(self@.rows[i as int] == self.rows@[i as int]@);
                assert(rv == self@.rows[i as int]);
            }
            rows.push(r);
            i = i + 1;
            proof {
                assert(rows@.map_values(|rr: Record| rr@) =~~= mprev.push(rv));
                assert(mprev.push(rv) =~~= self@.rows.subrange(0, i as int));
                assert(rows@.map_values(|rr: Record| rr@) =~~= self@.rows.subrange(0, i as int));
            }
        }
        let out = Table { name: copy_bytes(self.name.as_slice()), rows };
        proof {
            assert(out@.rows =~~= self@.rows);
            assert(out@ =~~= self@);
        }
        out
    }
}

/// The byte view of an optional owned byte string.
pub open spec fn opt_bytes(o: Option<Vec<u8>>) -> Option<Seq<u8>> {
    match o {
        None => None,
        Some(v) => Some(v@),
    }
}

impl Database {
    /// Every table sorted, no two tables sharing a name.
    pub open spec fn wf(self) -> bool {
        db_wf(self@)
    }

    /// A database holding no tables yet.
    pub fn empty() -> (out: Database)
        ensures
            out@ =~= Seq::<TableV>::empty(),
            out.wf(),
    {
        Database { tables: Vec::new() }
    }

    /// The index of the table named `name`, if one is there.
    pub fn find_table(&self, name: &[u8]) -> (r: Option<usize>)
        ensures
            match r {
                Some(i) => table_idx(self@, name@) == i as int && i < self@.len() && self@[
                    i as int
                ].name == name@,
                None => table_idx(self@, name@) == -1,
            },
    {
        proof {
            lemma_table_idx(self@, name@);
        }
        let n = self.tables.len();
        let mut i: usize = 0;
        while i < n
            invariant
                n == self@.len(),
                i <= n,
                forall|j: int| 0 <= j < i ==> (#[trigger] self@[j]).name != name@,
            decreases n - i,
        {
            if byte_eq(self.tables[i].name.as_slice(), name) {
                proof {
                    assert(self@[i as int] == self.tables@[i as int]@);
                    assert(self@[i as int].name == name@);
                    lemma_table_idx(self@, name@);
                    let x = table_idx(self@, name@);
                    if x == -1 {
                        assert(false);
                    }
                    if x > i as int {
                        assert(self@[i as int].name != name@);
                        assert(false);
                    }
                    if 0 <= x < i as int {
                        assert(self@[x].name != name@);
                        assert(false);
                    }
                    assert(x == i as int);
                }
                return Some(i);
            }
            proof {
                assert(self@[i as int] == self.tables@[i as int]@);
            }
            i = i + 1;
        }
        None
    }

    /// An independent copy of the whole image.
    pub fn duplicate(&self) -> (out: Database)
        ensures
            out@ == self@,
    {
        let mut tables: Vec<Table> = Vec::new();
        let mut i: usize = 0;
        while i < self.tables.len()
            invariant
                i <= self@.len(),
                tables@.map_values(|t: Table| t@) =~~= self@.subrange(0, i as int),
            decreases self@.len() - i,
        {
            let t = self.tables[i].duplicate();
            let ghost tv = t@;
            let ghost mprev = tables@.map_values(|tt: Table| tt@);
            proof {
                assert(self@[i as int] == self.tables@[i as int]@);
                assert(tv == self@[i as int]);
            }
            tables.push(t);
            i = i + 1;
            proof {
                assert(tables@.map_values(|tt: Table| tt@) =~~= mprev.push(tv));
                assert(mprev.push(tv) =~~= self@.subrange(0, i as int));
                assert(tables@.map_values(|tt: Table| tt@) =~~= self@.subrange(0, i as int));
            }
        }
        let out = Database { tables };
        proof {
            assert(out@ =~~= self@);
        }
        out
    }
}

} // verus!
