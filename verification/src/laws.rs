//! Laws of the layer, proved once over the model that every operation's
//! contract speaks in.
//!
//! Each law is stated over the connection view and the spec functions the
//! operations' `ensures` use — `conn_after_write` for what an insert or
//! remove does, `visible_db` for what a session reads, `apply_writes` for
//! what a commit applies, and the row-scan functions for what `next`
//! walks — so together with those contracts it pins the behaviour of any
//! call sequence the law describes.

use vstd::prelude::*;
use crate::table::TableV;
use crate::table::RecordV;
use crate::table::db_wf;
use crate::table::rows_sorted;
use crate::table::table_idx;
use crate::table::lemma_table_idx;
use crate::table::lookup;
use crate::table::upsert;
use crate::table::lemma_upsert_props;
use crate::table::next_idx;
use crate::table::lemma_next_of_member;
use crate::conn::ConnV;
use crate::conn::WriteV;
use crate::conn::SessV;
use crate::conn::conn_wf;
use crate::conn::conn_after_write;
use crate::conn::apply_write;
use crate::conn::apply_writes;
use crate::conn::lemma_apply_write_wf;
use crate::conn::visible_db;
use crate::conn::with_sessions;
use crate::conn::with_cursors;
use crate::conn::sess_live;
use crate::conn::cur_live;
use crate::conn::cur_killed;
use crate::order::lex_lt;

verus! {

/// Updating one table in place — its name kept — leaves every table
/// exactly where `table_idx` found it.
proof fn lemma_table_idx_after_update(db: Seq<TableV>, ti: int, t2: TableV)
    requires
        db_wf(db),
        0 <= ti < db.len(),
        t2.name == db[ti].name,
    ensures
        table_idx(db.update(ti, t2), db[ti].name) == ti,
{
    let db2 = db.update(ti, t2);
    let nm = db[ti].name;
    lemma_table_idx(db2, nm);
    let x = table_idx(db2, nm);
    if x == -1 {
        assert(db2[ti].name == nm);
        assert(false);
    }
    if x != ti {
        assert(db2[x].name == nm);
        assert(db[x].name == nm);
        if x < ti {
            assert(db[x].name != db[ti].name);
        } else {
            assert(db[ti].name != db[x].name);
        }
        assert(false);
    }
}

/// Law: a stored binding is read back byte for byte.
///
/// After a write that stores `value` under `key` — an insert or an
/// update, committed at once or staged under the writing session's
/// transaction — any session that shares the writer's view finds exactly
/// that value under that key: a session reading the committed tables
/// after an auto-committed write, or the writing session itself under its
/// transaction. With `search`'s and `get_raw_key_value`'s contracts this
/// pins the round trip `set_key; set_value; insert; set_key; search;
/// get_raw_key_value` on any cursor over the same data source and view.
pub proof fn lemma_insert_then_search(c: ConnV, sid: int, rid: int, w: WriteV)
    requires
        conn_wf(c),
        0 <= sid < c.sessions.len(),
        0 <= rid < c.sessions.len(),
        w.value is Some,
        table_idx(visible_db(c, sid), w.table) >= 0,
        c.sessions[sid].txn is None ==> rid == sid || c.sessions[rid].txn is None,
        c.sessions[sid].txn is Some ==> rid == sid,
    ensures
        ({
            let c2 = conn_after_write(c, sid, w);
            let ti = table_idx(visible_db(c2, rid), w.table);
            &&& conn_wf(c2)
            &&& ti >= 0
            &&& lookup(visible_db(c2, rid)[ti].rows, w.key) == Some(w.value->0)
        }),
{
    let db0 = visible_db(c, sid);
    let ti0 = table_idx(db0, w.table);
    lemma_table_idx(db0, w.table);
    assert(db_wf(db0));
    lemma_upsert_props(db0[ti0].rows, w.key, w.value->0);
    lemma_apply_write_wf(db0, w);
    let db2 = apply_write(db0, w);
    assert(db2 == db0.update(
        ti0,
        TableV { name: db0[ti0].name, rows: upsert(db0[ti0].rows, w.key, w.value->0) },
    ));
    lemma_table_idx_after_update(
        db0,
        ti0,
        TableV { name: db0[ti0].name, rows: upsert(db0[ti0].rows, w.key, w.value->0) },
    );
    assert(db0[ti0].name == w.table);
    let c2 = conn_after_write(c, sid, w);
    match c.sessions[sid].txn {
        None => {
            assert(visible_db(c2, rid) == db2);
            assert forall|i: int| 0 <= i < c2.sessions.len() implies crate::conn::sess_wf(
                #[trigger] c2.sessions[i],
            ) by {
                assert(c2.sessions[i] == c.sessions[i]);
            }
        },
        Some(t) => {
            assert(c2.sessions[sid].txn->0.snapshot == db2);
            assert(visible_db(c2, rid) == db2);
            crate::conn::lemma_one_session_changed(c, c2, sid);
        },
    }
}

/// Law: an uncommitted write is invisible to every other session.
///
/// While one session holds an open transaction, a write it performs
/// changes nothing another session reads: the other session's view — and
/// so, with `search`'s contract, the outcome of every search it makes —
/// is exactly what it was before the write.
pub proof fn lemma_txn_isolation(c: ConnV, sid: int, rid: int, w: WriteV)
    requires
        conn_wf(c),
        0 <= sid < c.sessions.len(),
        0 <= rid < c.sessions.len(),
        rid != sid,
        c.sessions[sid].txn is Some,
        c.sessions[rid].txn is None,
    ensures
        visible_db(conn_after_write(c, sid, w), rid) == visible_db(c, rid),
{
    let c2 = conn_after_write(c, sid, w);
    assert(c2.sessions[rid] == c.sessions[rid]);
    assert(c2.db == c.db);
}

/// Law: a rolled-back or abandoned transaction leaves no trace.
///
/// Ending a transaction without commit — the explicit rollback, and the
/// discard that never finalizes, which applies the same state change —
/// leaves the committed tables untouched, so every other session's view
/// after the rollback is exactly its view before: the staged writes never
/// became visible and now never will.
pub proof fn lemma_rollback_invisible(c: ConnV, sid: int, rid: int)
    requires
        conn_wf(c),
        0 <= sid < c.sessions.len(),
        0 <= rid < c.sessions.len(),
        rid != sid,
        c.sessions[rid].txn is None,
    ensures
        ({
            let c2 = with_sessions(
                c,
                c.sessions.update(sid, SessV { alive: c.sessions[sid].alive, txn: None }),
            );
            visible_db(c2, rid) == visible_db(c, rid)
        }),
{
}

/// Law: committing one staged binding makes it visible.
///
/// Applying a transaction's log that stores `value` under `key` to the
/// committed tables — what `commit_transaction`'s contract says commit
/// does — leaves well-formed tables in which every session reading the
/// committed state finds exactly that value under that key.
pub proof fn lemma_commit_makes_visible(db: Seq<TableV>, w: WriteV)
    requires
        db_wf(db),
        table_idx(db, w.table) >= 0,
        w.value is Some,
    ensures
        ({
            let db2 = apply_writes(db, seq![w]);
            let ti = table_idx(db2, w.table);
            &&& db_wf(db2)
            &&& ti >= 0
            &&& lookup(db2[ti].rows, w.key) == Some(w.value->0)
        }),
{
    let ti0 = table_idx(db, w.table);
    lemma_table_idx(db, w.table);
    lemma_upsert_props(db[ti0].rows, w.key, w.value->0);
    lemma_apply_write_wf(db, w);
    assert(seq![w][0] == w);
    assert(seq![w].skip(1) =~= Seq::<WriteV>::empty());
    let mid = apply_write(db, w);
    assert(apply_writes(db, seq![w]) == apply_writes(mid, seq![w].skip(1)));
    assert(apply_writes(mid, Seq::<WriteV>::empty()) == mid);
    assert(apply_writes(db, seq![w]) == apply_write(db, w));
    lemma_table_idx_after_update(
        db,
        ti0,
        TableV { name: db[ti0].name, rows: upsert(db[ti0].rows, w.key, w.value->0) },
    );
}

/// Law: a forward scan yields the rows in ascending key order, exactly
/// once each, and past the last row every further step reports the end.
///
/// With `next`'s contract — which moves the cursor to `next_idx` of its
/// view and leaves it in place on the end report — this pins the whole
/// scan `reset(); next(); next(); ...` over any sorted rows, such as a
/// database image reopened from storage: the first step lands on the
/// first row, each following step on the next row, and the step past the
/// last reports the not-found sentinel, as does every step after it.
pub proof fn lemma_forward_scan(rows: Seq<RecordV>)
    requires
        rows_sorted(rows),
    ensures
        next_idx(rows, None) == (if rows.len() == 0 { -1 } else { 0int }),
        forall|i: int|
            0 <= i < rows.len() && i + 1 < rows.len() ==> next_idx(
                rows,
                Some(#[trigger] rows[i].key),
            ) == i + 1,
        forall|i: int|
            0 <= i < rows.len() && i + 1 == rows.len() ==> next_idx(
                rows,
                Some(#[trigger] rows[i].key),
            ) == -1,
        forall|i: int, j: int| 0 <= i < j < rows.len() ==> lex_lt(rows[i].key, rows[j].key),
{
    assert forall|i: int|
        0 <= i < rows.len() && i + 1 < rows.len() implies next_idx(
        rows,
        Some(#[trigger] rows[i].key),
    ) == i + 1 by {
        lemma_next_of_member(rows, i);
    }
    assert forall|i: int|
        0 <= i < rows.len() && i + 1 == rows.len() implies next_idx(
        rows,
        Some(#[trigger] rows[i].key),
    ) == -1 by {
        lemma_next_of_member(rows, i);
    }
}

/// Law: releasing child before parent never errors, and a child of a
/// released parent is unreachable.
///
/// Closing a live cursor succeeds by `Cursor::close`'s contract and
/// leaves its session live with no transaction, so closing that session
/// then succeeds by `Session::close`'s contract; closing the connection
/// consumes it and always succeeds. After the session is gone the cursor
/// handle's slot is dead, so every cursor operation's contract reports
/// the stale handle as an error rather than reaching freed state — and a
/// handle of a closed connection cannot be used at all, since the
/// connection no longer exists.
pub proof fn lemma_release_order(c: ConnV, cid: int)
    requires
        conn_wf(c),
        cur_live(c, cid),
        c.sessions[c.cursors[cid].sess].txn is None,
    ensures
        ({
            let sid = c.cursors[cid].sess;
            let c1 = with_cursors(c, c.cursors.update(cid, cur_killed(c.cursors[cid], sid)));
            let c2 = with_cursors(
                with_sessions(c1, c1.sessions.update(sid, SessV { alive: false, txn: None })),
                c1.cursors.map_values(|cc: crate::conn::CurV| cur_killed(cc, sid)),
            );
            &&& conn_wf(c1)
            &&& sess_live(c1, sid)
            &&& c1.sessions[sid].txn is None
            &&& !cur_live(c1, cid)
            &&& !cur_live(c2, cid)
            &&& !sess_live(c2, sid)
        }),
{
    let sid = c.cursors[cid].sess;
    let c1 = with_cursors(c, c.cursors.update(cid, cur_killed(c.cursors[cid], sid)));
    assert forall|i: int|
        0 <= i < c1.cursors.len() implies 0 <= (#[trigger] c1.cursors[i]).sess
        < c1.sessions.len() && (c1.cursors[i].alive ==> c1.sessions[c1.cursors[i].sess].alive) by {
        if i != cid {
            assert(c1.cursors[i] == c.cursors[i]);
        }
    }
}

} // verus!
