//! The safe resource layer: connection, session, cursor, transaction.
//!
//! A [`Connection`] owns everything: the tables, a slot for every session
//! ever opened on it, and a slot for every cursor. [`Session`] and
//! [`Cursor`] are handles — indices into those arenas — so no child can
//! reach freed state: every operation first checks its slot is alive and
//! reports a stale handle as an error. Closing the connection consumes it,
//! which makes using a child handle after the connection is gone a
//! compile-time error.
//!
//! A session with an open transaction reads a snapshot taken when the
//! transaction began, plus its own writes; every other session reads the
//! committed tables. Commit applies the transaction's write log to the
//! committed tables; rollback, or discarding the transaction, applies
//! nothing, so an uncommitted write is never observable elsewhere.

use vstd::prelude::*;
use vstd::string::StringSliceAdditionalSpecFns;
use vstd::string::StrSliceExecFns;
use crate::errors::Error;
use crate::errors::is_err_code;
use crate::errors::EINVAL;
use crate::errors::ENOENT;
use crate::errors::EEXIST;
use crate::errors::EBUSY;
use crate::errors::WT_TRY_SALVAGE;
use crate::errors::WT_NOTFOUND;
use crate::errors::WT_DUPLICATE_KEY;
use crate::config::ConfigScope;
use crate::config::valid_config;
use crate::config::config_flag_or;
use crate::config::config_num_or;
use crate::config::validate_config;
use crate::config::read_flag_or;
use crate::config::read_num_or;
use crate::config::all_key_bytes;
use crate::config::all_key_bytes_exec;
use crate::table::Database;
use crate::table::Table;
use crate::table::TableV;
use crate::table::db_wf;
use crate::table::table_idx;
use crate::table::lemma_table_idx;
use crate::table::rows_sorted;
use crate::table::lookup;
use crate::table::upsert;
use crate::table::remove_key;
use crate::table::lemma_upsert_props;
use crate::table::lemma_remove_props;
use crate::table::next_idx;
use crate::table::prev_idx;
use crate::table::row_idx;
use crate::table::opt_bytes;
use crate::table::copy_bytes;
use crate::order::byte_eq;
use crate::order::lex_lt;
use crate::order::CompareStatus;

verus! {

/// The connection options the layer keeps after open and reconfigure.
#[derive(Debug, Clone, Copy)]
pub struct ConnCfg {
    pub eviction_target: u64,
    pub eviction_dirty_target: u64,
    pub eviction_trigger: u64,
    pub cache_max_wait_ms: u64,
}

/// One write a transaction has staged: a new binding, or `None` for a
/// removal.
#[derive(Debug)]
pub struct WriteOp {
    pub table: Vec<u8>,
    pub key: Vec<u8>,
    pub value: Option<Vec<u8>>,
}

/// The mathematical value of a staged write.
#[verifier::ext_equal]
pub struct WriteV {
    pub table: Seq<u8>,
    pub key: Seq<u8>,
    pub value: Option<Seq<u8>>,
}

impl View for WriteOp {
    type V = WriteV;

    open spec fn view(&self) -> WriteV {
        WriteV { table: self.table@, key: self.key@, value: opt_bytes(self.value) }
    }
}

/// A running transaction: the snapshot its reads see, the writes it will
/// apply on commit, and whether it has been prepared.
#[derive(Debug)]
pub struct TxnState {
    pub snapshot: Database,
    pub writes: Vec<WriteOp>,
    pub prepared: bool,
}

/// The mathematical value of a running transaction.
#[verifier::ext_equal]
pub struct TxnV {
    pub snapshot: Seq<TableV>,
    pub writes: Seq<WriteV>,
    pub prepared: bool,
}

impl View for TxnState {
    type V = TxnV;

    open spec fn view(&self) -> TxnV {
        TxnV {
            snapshot: self.snapshot@,
            writes: self.writes@.map_values(|w: WriteOp| w@),
            prepared: self.prepared,
        }
    }
}

/// One session's slot in the connection's arena.
#[derive(Debug)]
pub struct SessionSlot {
    pub alive: bool,
    pub txn: Option<TxnState>,
}

/// The mathematical value of a session slot.
#[verifier::ext_equal]
pub struct SessV {
    pub alive: bool,
    pub txn: Option<TxnV>,
}

impl View for SessionSlot {
    type V = SessV;

    open spec fn view(&self) -> SessV {
        SessV {
            alive: self.alive,
            txn: match &self.txn {
                None => None,
                Some(t) => Some(t@),
            },
        }
    }
}

/// One cursor's slot in the connection's arena: which session it belongs
/// to, which table it ranges over, the staged key and value, and the scan
/// position.
#[derive(Debug)]
pub struct CursorSlot {
    pub alive: bool,
    pub sess: usize,
    pub table: Vec<u8>,
    pub key: Option<Vec<u8>>,
    pub value: Option<Vec<u8>>,
    pub pos: Option<Vec<u8>>,
    pub overwrite: bool,
    pub lower: Option<Vec<u8>>,
    pub upper: Option<Vec<u8>>,
}

/// The mathematical value of a cursor slot.
#[verifier::ext_equal]
pub struct CurV {
    pub alive: bool,
    pub sess: int,
    pub table: Seq<u8>,
    pub key: Option<Seq<u8>>,
    pub value: Option<Seq<u8>>,
    pub pos: Option<Seq<u8>>,
    pub overwrite: bool,
    pub lower: Option<Seq<u8>>,
    pub upper: Option<Seq<u8>>,
}

impl View for CursorSlot {
    type V = CurV;

    open spec fn view(&self) -> CurV {
        CurV {
            alive: self.alive,
            sess: self.sess as int,
            table: self.table@,
            key: opt_bytes(self.key),
            value: opt_bytes(self.value),
            pos: opt_bytes(self.pos),
            overwrite: self.overwrite,
            lower: opt_bytes(self.lower),
            upper: opt_bytes(self.upper),
        }
    }
}

/// The mathematical value of a whole connection.
#[verifier::ext_equal]
pub struct ConnV {
    pub home: Seq<char>,
    pub is_new: bool,
    pub cfg: ConnCfg,
    pub db: Seq<TableV>,
    pub sessions: Seq<SessV>,
    pub cursors: Seq<CurV>,
}

/// An open database environment: the committed tables and the arenas of
/// session and cursor slots.
#[derive(Debug)]
pub struct Connection {
    home: String,
    is_new: bool,
    cfg: ConnCfg,
    db: Database,
    sessions: Vec<SessionSlot>,
    cursors: Vec<CursorSlot>,
}

impl View for Connection {
    type V = ConnV;

    closed spec fn view(&self) -> ConnV {
        ConnV {
            home: self.home@,
            is_new: self.is_new,
            cfg: self.cfg,
            db: self.db@,
            sessions: self.sessions@.map_values(|s: SessionSlot| s@),
            cursors: self.cursors@.map_values(|c: CursorSlot| c@),
        }
    }
}

/// A session handle: an index into its connection's session arena.
#[derive(Debug)]
pub struct Session {
    id: usize,
}

impl View for Session {
    type V = int;

    closed spec fn view(&self) -> int {
        self.id as int
    }
}

/// A cursor handle: an index into its connection's cursor arena.
#[derive(Debug)]
pub struct Cursor {
    id: usize,
}

impl View for Cursor {
    type V = int;

    closed spec fn view(&self) -> int {
        self.id as int
    }
}

/// A transaction bound to one session, tracking the finalize-once state:
/// once committed or rolled back it never issues a second finalize.
#[derive(Debug)]
pub struct Transaction {
    sess: usize,
    finished: bool,
}

/// The mathematical value of a transaction handle.
#[verifier::ext_equal]
pub struct TranV {
    pub sess: int,
    pub finished: bool,
}

impl View for Transaction {
    type V = TranV;

    closed spec fn view(&self) -> TranV {
        TranV { sess: self.sess as int, finished: self.finished }
    }
}

/// A session slot's tables are well formed.
pub open spec fn sess_wf(s: SessV) -> bool {
    match s.txn {
        None => true,
        Some(t) => db_wf(t.snapshot),
    }
}

/// A live session: in range and not closed.
pub open spec fn sess_live(c: ConnV, sid: int) -> bool {
    0 <= sid < c.sessions.len() && c.sessions[sid].alive
}

/// A live cursor: in range and not closed.
pub open spec fn cur_live(c: ConnV, cid: int) -> bool {
    0 <= cid < c.cursors.len() && c.cursors[cid].alive
}

/// The tables a session reads: the snapshot of its open transaction, or
/// the committed tables.
pub open spec fn visible_db(c: ConnV, sid: int) -> Seq<TableV> {
    match c.sessions[sid].txn {
        None => c.db,
        Some(t) => t.snapshot,
    }
}

/// A connection's invariant: committed tables well formed, every
/// transaction snapshot well formed, and every live cursor on a live
/// session.
pub open spec fn conn_wf(c: ConnV) -> bool {
    &&& db_wf(c.db)
    &&& forall|i: int| 0 <= i < c.sessions.len() ==> sess_wf(#[trigger] c.sessions[i])
    &&& forall|i: int|
        0 <= i < c.cursors.len() ==> 0 <= (#[trigger] c.cursors[i]).sess < c.sessions.len() && (
        c.cursors[i].alive ==> c.sessions[c.cursors[i].sess].alive)
}

/// The view with the committed tables replaced.
pub open spec fn with_db(c: ConnV, db: Seq<TableV>) -> ConnV {
    ConnV { home: c.home, is_new: c.is_new, cfg: c.cfg, db, sessions: c.sessions, cursors: c.cursors }
}

/// The view with the session slots replaced.
pub open spec fn with_sessions(c: ConnV, sessions: Seq<SessV>) -> ConnV {
    ConnV { home: c.home, is_new: c.is_new, cfg: c.cfg, db: c.db, sessions, cursors: c.cursors }
}

/// The view with the cursor slots replaced.
pub open spec fn with_cursors(c: ConnV, cursors: Seq<CurV>) -> ConnV {
    ConnV { home: c.home, is_new: c.is_new, cfg: c.cfg, db: c.db, sessions: c.sessions, cursors }
}

/// The view with the kept options replaced.
pub open spec fn with_cfg(c: ConnV, cfg: ConnCfg) -> ConnV {
    ConnV { home: c.home, is_new: c.is_new, cfg, db: c.db, sessions: c.sessions, cursors: c.cursors }
}

/// The options a connection keeps, read from an open or reconfigure
/// string, falling back to the fields of `base`.
pub open spec fn cfg_from(s: Seq<u8>, base: ConnCfg) -> ConnCfg {
    ConnCfg {
        eviction_target: config_num_or(
            s,
            "eviction_target".spec_bytes(),
            base.eviction_target as int,
        ) as u64,
        eviction_dirty_target: config_num_or(
            s,
            "eviction_dirty_target".spec_bytes(),
            base.eviction_dirty_target as int,
        ) as u64,
        eviction_trigger: config_num_or(
            s,
            "eviction_trigger".spec_bytes(),
            base.eviction_trigger as int,
        ) as u64,
        cache_max_wait_ms: config_num_or(
            s,
            "cache_max_wait_ms".spec_bytes(),
            base.cache_max_wait_ms as int,
        ) as u64,
    }
}

/// The documented defaults for the kept options.
pub open spec fn default_cfg() -> ConnCfg {
    ConnCfg {
        eviction_target: 80,
        eviction_dirty_target: 80,
        eviction_trigger: 95,
        cache_max_wait_ms: 0,
    }
}

impl Connection {
    /// The connection's invariant.
    pub open spec fn wf(self) -> bool {
        conn_wf(self@)
    }

    /// Reads the kept options out of a configuration string.
    fn read_cfg(options: &str, base: ConnCfg) -> (cfg: ConnCfg)
        ensures
            cfg == cfg_from(options.spec_bytes(), base),
    {
        ConnCfg {
            eviction_target: read_num_or(
                options,
                "eviction_target".as_bytes(),
                base.eviction_target,
            ),
            eviction_dirty_target: read_num_or(
                options,
                "eviction_dirty_target".as_bytes(),
                base.eviction_dirty_target,
            ),
            eviction_trigger: read_num_or(
                options,
                "eviction_trigger".as_bytes(),
                base.eviction_trigger,
            ),
            cache_max_wait_ms: read_num_or(
                options,
                "cache_max_wait_ms".as_bytes(),
                base.cache_max_wait_ms,
            ),
        }
    }

    /// Opens a database environment at `home`.
    ///
    /// `stored` is what the environment found durably stored at that path —
    /// `None` when nothing is there. Opening nothing without the `create`
    /// option fails as unreadable on-disk state; opening something with
    /// `exclusive` fails because the database already exists. On success
    /// `is_new` reports whether the environment was freshly created.
    pub fn open(home: &str, options: &str, stored: Option<Database>) -> (r: Result<
        Connection,
        Error,
    >)
        requires
            (stored matches Some(d) ==> d.wf()),
        ensures
            ({
                let opts = options.spec_bytes();
                let cfg = cfg_from(opts, default_cfg());
                if !valid_config(opts, ConfigScope::Open) || !(cfg.eviction_target
                    < cfg.eviction_trigger) {
                    is_err_code(r, EINVAL)
                } else if stored is None && !config_flag_or(opts, "create".spec_bytes(), false) {
                    is_err_code(r, WT_TRY_SALVAGE)
                } else if stored is Some && config_flag_or(opts, "exclusive".spec_bytes(), false) {
                    is_err_code(r, EEXIST)
                } else {
                    &&& r matches Ok(c)
                    &&& c.wf()
                    &&& c@.home == home@
                    &&& c@.is_new == (stored is None)
                    &&& c@.db == (match stored {
                        None => Seq::<TableV>::empty(),
                        Some(d) => d@,
                    })
                    &&& c@.sessions.len() == 0
                    &&& c@.cursors.len() == 0
                    &&& c@.cfg == cfg
                }
            }),
    {
        let cfg = Self::read_cfg(options, ConnCfg {
            eviction_target: 80,
            eviction_dirty_target: 80,
            eviction_trigger: 95,
            cache_max_wait_ms: 0,
        });
        if !validate_config(options, ConfigScope::Open) || !(cfg.eviction_target
            < cfg.eviction_trigger) {
            return Err(Error::from_code(EINVAL));
        }
        match stored {
            None => {
                if !read_flag_or(options, "create".as_bytes(), false) {
                    return Err(Error::from_code(WT_TRY_SALVAGE));
                }
                Ok(Connection {
                    home: home.to_owned(),
                    is_new: true,
                    cfg,
                    db: Database::empty(),
                    sessions: Vec::new(),
                    cursors: Vec::new(),
                })
            },
            Some(d) => {
                if read_flag_or(options, "exclusive".as_bytes(), false) {
                    return Err(Error::from_code(EEXIST));
                }
                Ok(Connection {
                    home: home.to_owned(),
                    is_new: false,
                    cfg,
                    db: d,
                    sessions: Vec::new(),
                    cursors: Vec::new(),
                })
            },
        }
    }

    /// Closes the environment and hands back the durable image: exactly
    /// the committed tables. Consuming the connection makes every session
    /// and cursor handle derived from it unusable, so closing while a
    /// child is in use cannot compile.
    pub fn close(self) -> (r: Result<Database, Error>)
        requires
            self.wf(),
        ensures
            r matches Ok(d) && d@ == self@.db && d.wf(),
    {
        Ok(self.db)
    }

    /// Closes the environment under a close-time option string.
    ///
    /// A malformed string is rejected — and the connection handed back —
    /// rather than half-closing anything.
    pub fn close_with_config(self, config: &str) -> (r: Result<Database, (Connection, Error)>)
        requires
            self.wf(),
        ensures
            ({
                if valid_config(config.spec_bytes(), ConfigScope::CloseConn) {
                    r matches Ok(d) && d@ == self@.db && d.wf()
                } else {
                    r matches Err(p) && p.0@ == self@ && p.0.wf() && p.1.code == EINVAL
                        && p.1.message@ == crate::errors::error_message_spec(EINVAL)
                }
            }),
    {
        if validate_config(config, ConfigScope::CloseConn) {
            Ok(self.db)
        } else {
            Err((self, Error::from_code(EINVAL)))
        }
    }

    /// The home path this environment was opened at.
    pub fn get_home(&self) -> (r: Result<String, Error>)
        ensures
            r matches Ok(h) && h@ == self@.home,
    {
        Ok(self.home.clone())
    }

    /// Whether the open created the database rather than finding one.
    pub fn is_new(&self) -> (r: bool)
        ensures
            r == self@.is_new,
    {
        self.is_new
    }

    /// Applies a new option string to the open connection.
    ///
    /// A malformed or unknown option, an out-of-range value, or an
    /// eviction target at or above the trigger is rejected as an invalid
    /// argument, and nothing changes; otherwise the mentioned options are
    /// updated and everything else is untouched.
    pub fn reconfigure(&mut self, config: &str) -> (r: Result<(), Error>)
        requires
            old(self).wf(),
        ensures
            final(self).wf(),
            ({
                let opts = config.spec_bytes();
                let cfg = cfg_from(opts, old(self)@.cfg);
                if !valid_config(opts, ConfigScope::ConnReconfigure) || !(cfg.eviction_target
                    < cfg.eviction_trigger) {
                    is_err_code(r, EINVAL) && final(self)@ == old(self)@
                } else {
                    r matches Ok(u) && final(self)@ == with_cfg(old(self)@, cfg)
                }
            }),
    {
        let cfg = Self::read_cfg(config, self.cfg);
        if !validate_config(config, ConfigScope::ConnReconfigure) || !(cfg.eviction_target
            < cfg.eviction_trigger) {
            return Err(Error::from_code(EINVAL));
        }
        self.cfg = cfg;
        proof {
            assert(final(self)@ =~= with_cfg(old(self)@, cfg));
        }
        Ok(())
    }

    /// Opens a session on this connection: a fresh live slot, everything
    /// else untouched.
    pub fn open_session(&mut self) -> (r: Result<Session, Error>)
        requires
            old(self).wf(),
        ensures
            final(self).wf(),
            r matches Ok(s) && s@ == old(self)@.sessions.len() && final(self)@ == with_sessions(
                old(self)@,
                old(self)@.sessions.push(SessV { alive: true, txn: None }),
            ),
    {
        let id = self.sessions.len();
        let ghost prev = self@;
        self.sessions.push(SessionSlot { alive: true, txn: None });
        proof {
            assert(self@.sessions =~= prev.sessions.push(SessV { alive: true, txn: None }));
            assert(self@ =~= with_sessions(prev, prev.sessions.push(
                SessV { alive: true, txn: None },
            )));
            assert forall|i: int| 0 <= i < self@.sessions.len() implies sess_wf(
                #[trigger] self@.sessions[i],
            ) by {
                if i < prev.sessions.len() {
                    assert(self@.sessions[i] == prev.sessions[i]);
                }
            }
        }
        Ok(Session { id })
    }

    /// Whether a session handle points at a live slot.
    fn sess_ok(&self, id: usize) -> (r: bool)
        ensures
            r == sess_live(self@, id as int),
    {
        if id < self.sessions.len() {
            proof {
                assert(self@.sessions[id as int] == self.sessions@[id as int]@);
            }
            self.sessions[id].alive
        } else {
            false
        }
    }

    /// Whether a cursor handle points at a live slot.
    fn cur_ok(&self, id: usize) -> (r: bool)
        ensures
            r == cur_live(self@, id as int),
    {
        if id < self.cursors.len() {
            proof {
                assert(self@.cursors[id as int] == self.cursors@[id as int]@);
            }
            self.cursors[id].alive
        } else {
            false
        }
    }
}

/// A refused close: the same session handle comes back beside the
/// invalid-argument error.
pub open spec fn sess_close_refused(r: Result<(), (Session, Error)>, sid: int) -> bool {
    &&& r matches Err(p)
    &&& r->Err_0.0@ == sid
    &&& r->Err_0.1.code == EINVAL
    &&& r->Err_0.1.message@ == crate::errors::error_message_spec(EINVAL)
}

/// The name a table URI carries: the bytes after `table:`, which must be
/// key bytes.
pub open spec fn table_uri_name(u: Seq<u8>) -> Option<Seq<u8>> {
    if u.len() > 6 && u.subrange(0, 6) == "table:".spec_bytes() && all_key_bytes(
        u.subrange(6, u.len() as int),
    ) {
        Some(u.subrange(6, u.len() as int))
    } else {
        None
    }
}

/// Parses a `table:` URI into the bare table name.
fn parse_table_uri(uri: &str) -> (r: Option<Vec<u8>>)
    ensures
        match r {
            Some(n) => table_uri_name(uri.spec_bytes()) == Some(n@),
            None => table_uri_name(uri.spec_bytes()) is None,
        },
{
    let b = uri.as_bytes();
    if b.len() <= 6 {
        return None;
    }
    let prefix = crate::table::copy_bytes_range(b, 0, 6);
    if !byte_eq(prefix.as_slice(), "table:".as_bytes()) {
        return None;
    }
    let name = crate::table::copy_bytes_range(b, 6, b.len());
    if !all_key_bytes_exec(name.as_slice()) {
        return None;
    }
    Some(name)
}

/// A cursor slot with its session gone: closed, its staging cleared.
pub open spec fn cur_killed(c: CurV, sid: int) -> CurV {
    if c.sess == sid {
        CurV {
            alive: false,
            sess: c.sess,
            table: c.table,
            key: None,
            value: None,
            pos: None,
            overwrite: c.overwrite,
            lower: c.lower,
            upper: c.upper,
        }
    } else {
        c
    }
}

/// A cursor slot after a session reset: its staging and position cleared.
pub open spec fn cur_cleared(c: CurV, sid: int) -> CurV {
    if c.sess == sid {
        CurV {
            alive: c.alive,
            sess: c.sess,
            table: c.table,
            key: None,
            value: None,
            pos: None,
            overwrite: c.overwrite,
            lower: c.lower,
            upper: c.upper,
        }
    } else {
        c
    }
}

/// The committed tables after one staged write: a removal or a new
/// binding, or nothing when the table is gone.
pub open spec fn apply_write(db: Seq<TableV>, w: WriteV) -> Seq<TableV> {
    let ti = table_idx(db, w.table);
    if ti == -1 {
        db
    } else {
        match w.value {
            Some(v) => db.update(
                ti,
                TableV { name: db[ti].name, rows: upsert(db[ti].rows, w.key, v) },
            ),
            None => db.update(
                ti,
                TableV { name: db[ti].name, rows: remove_key(db[ti].rows, w.key) },
            ),
        }
    }
}

/// The committed tables after a whole write log, applied in order.
pub open spec fn apply_writes(db: Seq<TableV>, ws: Seq<WriteV>) -> Seq<TableV>
    decreases ws.len(),
{
    if ws.len() == 0 {
        db
    } else {
        apply_writes(apply_write(db, ws[0]), ws.skip(1))
    }
}

/// One staged write keeps the tables well formed.
pub proof fn lemma_apply_write_wf(db: Seq<TableV>, w: WriteV)
    requires
        db_wf(db),
    ensures
        db_wf(apply_write(db, w)),
{
    let ti = table_idx(db, w.table);
    lemma_table_idx(db, w.table);
    if ti >= 0 {
        lemma_upsert_props(db[ti].rows, w.key, match w.value {
            Some(v) => v,
            None => Seq::empty(),
        });
        lemma_remove_props(db[ti].rows, w.key);
        let out = apply_write(db, w);
        assert forall|i: int| 0 <= i < out.len() implies rows_sorted(#[trigger] out[i].rows) by {
            if i != ti {
                assert(out[i] == db[i]);
            }
        }
        assert forall|i: int, j: int| 0 <= i < j < out.len() implies out[i].name
            != out[j].name by {
            assert(out[i].name == db[i].name);
            assert(out[j].name == db[j].name);
        }
    }
}

/// A whole write log keeps the tables well formed.
pub proof fn lemma_apply_writes_wf(db: Seq<TableV>, ws: Seq<WriteV>)
    requires
        db_wf(db),
    ensures
        db_wf(apply_writes(db, ws)),
    decreases ws.len(),
{
    if ws.len() > 0 {
        lemma_apply_write_wf(db, ws[0]);
        lemma_apply_writes_wf(apply_write(db, ws[0]), ws.skip(1));
    }
}

/// Stores a binding in one committed table.
fn db_upsert(db: &mut Database, ti: usize, key: Vec<u8>, value: Vec<u8>)
    requires
        old(db).wf(),
        ti < old(db)@.len(),
    ensures
        final(db).wf(),
        final(db)@ == old(db)@.update(
            ti as int,
            TableV {
                name: old(db)@[ti as int].name,
                rows: upsert(old(db)@[ti as int].rows, key@, value@),
            },
        ),
{
    proof {
        assert(old(db)@[ti as int] == old(db).tables@[ti as int]@);
        lemma_upsert_props(old(db)@[ti as int].rows, key@, value@);
    }
    let t = &mut db.tables[ti];
    t.upsert(key, value);
    proof {
        assert(db@ =~~= old(db)@.update(
            ti as int,
            TableV {
                name: old(db)@[ti as int].name,
                rows: upsert(old(db)@[ti as int].rows, key@, value@),
            },
        ));
        assert forall|i: int| 0 <= i < db@.len() implies rows_sorted(#[trigger] db@[i].rows) by {
            if i != ti as int {
                assert(db@[i] == old(db)@[i]);
            }
        }
        assert forall|i: int, j: int| 0 <= i < j < db@.len() implies db@[i].name
            != db@[j].name by {
            assert(db@[i].name == old(db)@[i].name);
            assert(db@[j].name == old(db)@[j].name);
        }
    }
}

/// Removes a binding from one committed table.
fn db_remove(db: &mut Database, ti: usize, key: &[u8])
    requires
        old(db).wf(),
        ti < old(db)@.len(),
    ensures
        final(db).wf(),
        final(db)@ == old(db)@.update(
            ti as int,
            TableV {
                name: old(db)@[ti as int].name,
                rows: remove_key(old(db)@[ti as int].rows, key@),
            },
        ),
{
    proof {
        assert(old(db)@[ti as int] == old(db).tables@[ti as int]@);
        lemma_remove_props(old(db)@[ti as int].rows, key@);
    }
    let t = &mut db.tables[ti];
    t.remove(key);
    proof {
        assert(db@ =~~= old(db)@.update(
            ti as int,
            TableV {
                name: old(db)@[ti as int].name,
                rows: remove_key(old(db)@[ti as int].rows, key@),
            },
        ));
        assert forall|i: int| 0 <= i < db@.len() implies rows_sorted(#[trigger] db@[i].rows) by {
            if i != ti as int {
                assert(db@[i] == old(db)@[i]);
            }
        }
        assert forall|i: int, j: int| 0 <= i < j < db@.len() implies db@[i].name
            != db@[j].name by {
            assert(db@[i].name == old(db)@[i].name);
            assert(db@[j].name == old(db)@[j].name);
        }
    }
}

impl Session {
    /// Closes the session.
    ///
    /// Fails on a stale handle, and while a transaction is open — a
    /// session may not be destroyed under a running transaction. On
    /// success the slot dies and every cursor of this session is closed
    /// with it, so release order is kept without any caller discipline.
    #[verifier::loop_isolation(false)]
    pub fn close(self, conn: &mut Connection) -> (r: Result<(), (Session, Error)>)
        requires
            old(conn).wf(),
        ensures
            final(conn).wf(),
            ({
                let sid = self@;
                if !sess_live(old(conn)@, sid) {
                    sess_close_refused(r, sid) && final(conn)@ == old(conn)@
                } else if old(conn)@.sessions[sid].txn is Some {
                    sess_close_refused(r, sid) && final(conn)@ == old(conn)@
                } else {
                    r matches Ok(u) && final(conn)@ == with_cursors(
                        with_sessions(
                            old(conn)@,
                            old(conn)@.sessions.update(sid, SessV { alive: false, txn: None }),
                        ),
                        old(conn)@.cursors.map_values(|c: CurV| cur_killed(c, sid)),
                    )
                }
            }),
    {
        let id = self.id;
        if !conn.sess_ok(id) {
            return Err((self, Error::from_code(EINVAL)));
        }
        proof {
            assert(conn@.sessions[id as int] == conn.sessions@[id as int]@);
        }
        if conn.sessions[id].txn.is_some() {
            return Err((self, Error::from_code(EINVAL)));
        }
        let s = &mut conn.sessions[id];
        s.alive = false;
        s.txn = None;
        proof {
            assert(conn@.sessions =~= old(conn)@.sessions.update(
                id as int,
                SessV { alive: false, txn: None },
            ));
        }
        let ghost mid = conn@;
        let n = conn.cursors.len();
        let mut i: usize = 0;
        while i < n
            invariant
                i <= n,
                n == conn@.cursors.len(),
                conn@.home == mid.home,
                conn@.is_new == mid.is_new,
                conn@.cfg == mid.cfg,
                conn@.db == mid.db,
                conn@.sessions == mid.sessions,
                forall|j: int|
                    0 <= j < i ==> conn@.cursors[j] == cur_killed(#[trigger] mid.cursors[j], self@),
                forall|j: int| i <= j < n ==> conn@.cursors[j] == #[trigger] mid.cursors[j],
            decreases n - i,
        {
            proof {
                assert(conn@.cursors[i as int] == conn.cursors@[i as int]@);
            }
            let ghost before = conn@;
            if conn.cursors[i].sess == id {
                let c = &mut conn.cursors[i];
                c.alive = false;
                c.key = None;
                c.value = None;
                c.pos = None;
                proof {
                    let bc = before.cursors[i as int];
                    let nc = conn@.cursors[i as int];
                    assert(conn@.cursors.len() == before.cursors.len());
                    assert(nc.alive == false);
                    assert(nc.key is None);
                    assert(nc.value is None);
                    assert(nc.pos is None);
                    assert(nc.sess == bc.sess);
                    assert(nc.table == bc.table);
                    assert(nc.overwrite == bc.overwrite);
                    assert(bc.sess == self@);
                    assert(nc == cur_killed(bc, self@));
                    assert(conn@.cursors =~= before.cursors.update(
                        i as int,
                        cur_killed(before.cursors[i as int], self@),
                    ));
                    assert(conn@.cursors[i as int] == cur_killed(mid.cursors[i as int], self@));
                    assert forall|j: int| 0 <= j < i implies conn@.cursors[j] == cur_killed(
                        #[trigger] mid.cursors[j],
                        self@,
                    ) by {
                        assert(conn@.cursors[j] == before.cursors[j]);
                    }
                }
            } else {
                proof {
                    assert(conn@.cursors[i as int] == cur_killed(mid.cursors[i as int], self@));
                }
            }
            i = i + 1;
        }
        proof {
            assert(conn@.cursors =~= mid.cursors.map_values(|c: CurV| cur_killed(c, self@)));
            assert(conn@ =~= with_cursors(
                with_sessions(
                    old(conn)@,
                    old(conn)@.sessions.update(self@, SessV { alive: false, txn: None }),
                ),
                old(conn)@.cursors.map_values(|c: CurV| cur_killed(c, self@)),
            ));
            assert forall|j: int| 0 <= j < conn@.sessions.len() implies sess_wf(
                #[trigger] conn@.sessions[j],
            ) by {
                if j != self@ {
                    assert(conn@.sessions[j] == old(conn)@.sessions[j]);
                }
            }
            assert forall|j: int|
                0 <= j < conn@.cursors.len() implies 0 <= (#[trigger] conn@.cursors[j]).sess
                < conn@.sessions.len() && (conn@.cursors[j].alive
                ==> conn@.sessions[conn@.cursors[j].sess].alive) by {
                assert(conn@.cursors[j] == cur_killed(old(conn)@.cursors[j], self@));
                if conn@.cursors[j].alive {
                    assert(conn@.cursors[j].sess != self@);
                    assert(conn@.sessions[conn@.cursors[j].sess] == old(
                        conn,
                    )@.sessions[conn@.cursors[j].sess]);
                }
            }
        }
        Ok(())
    }

    /// Creates the named table.
    ///
    /// Creating a table that is already there succeeds and changes
    /// nothing, unless `exclusive` is asked for, which then fails because
    /// the object exists.
    pub fn create(&self, conn: &mut Connection, uri: &str, config: &str) -> (r: Result<(), Error>)
        requires
            old(conn).wf(),
        ensures
            final(conn).wf(),
            ({
                let sid = self@;
                let name = table_uri_name(uri.spec_bytes());
                if !sess_live(old(conn)@, sid) {
                    is_err_code(r, EINVAL) && final(conn)@ == old(conn)@
                } else if !valid_config(config.spec_bytes(), ConfigScope::Create) || name is None {
                    is_err_code(r, EINVAL) && final(conn)@ == old(conn)@
                } else if table_idx(old(conn)@.db, name->0) >= 0 {
                    if config_flag_or(config.spec_bytes(), "exclusive".spec_bytes(), false) {
                        is_err_code(r, EEXIST) && final(conn)@ == old(conn)@
                    } else {
                        r matches Ok(u) && final(conn)@ == old(conn)@
                    }
                } else {
                    r matches Ok(u) && final(conn)@ == with_db(
                        old(conn)@,
                        old(conn)@.db.push(TableV { name: name->0, rows: Seq::empty() }),
                    )
                }
            }),
    {
        if !conn.sess_ok(self.id) {
            return Err(Error::from_code(EINVAL));
        }
        if !validate_config(config, ConfigScope::Create) {
            return Err(Error::from_code(EINVAL));
        }
        let name = match parse_table_uri(uri) {
            None => {
                return Err(Error::from_code(EINVAL));
            },
            Some(n) => n,
        };
        match conn.db.find_table(name.as_slice()) {
            Some(ti) => {
                if read_flag_or(config, "exclusive".as_bytes(), false) {
                    Err(Error::from_code(EEXIST))
                } else {
                    Ok(())
                }
            },
            None => {
                let ghost prev = conn@;
                let ghost nm = name@;
                conn.db.tables.push(Table { name, rows: Vec::new() });
                proof {
                    assert(conn@.db =~~= prev.db.push(TableV { name: nm, rows: Seq::empty() }));
                    assert(conn@ =~= with_db(prev, prev.db.push(
                        TableV { name: nm, rows: Seq::empty() },
                    )));
                    crate::table::lemma_table_idx(prev.db, nm);
                    assert forall|i: int| 0 <= i < conn@.db.len() implies rows_sorted(
                        #[trigger] conn@.db[i].rows,
                    ) by {
                        if i < prev.db.len() {
                            assert(conn@.db[i] == prev.db[i]);
                        }
                    }
                    assert forall|i: int, j: int|
                        0 <= i < j < conn@.db.len() implies conn@.db[i].name
                        != conn@.db[j].name by {
                        if j < prev.db.len() {
                            assert(conn@.db[i] == prev.db[i]);
                            assert(conn@.db[j] == prev.db[j]);
                        } else {
                            assert(conn@.db[i] == prev.db[i]);
                            assert(conn@.db[j].name == nm);
                        }
                    }
                }
                Ok(())
            },
        }
    }

    /// Removes the named table.
    ///
    /// A missing table fails as not found unless `force` is asked for; a
    /// table a live cursor still ranges over is busy and stays.
    #[verifier::loop_isolation(false)]
    pub fn drop(&self, conn: &mut Connection, uri: &str, config: &str) -> (r: Result<(), Error>)
        requires
            old(conn).wf(),
        ensures
            final(conn).wf(),
            ({
                let sid = self@;
                let name = table_uri_name(uri.spec_bytes());
                if !sess_live(old(conn)@, sid) {
                    is_err_code(r, EINVAL) && final(conn)@ == old(conn)@
                } else if !valid_config(config.spec_bytes(), ConfigScope::DropTable)
                    || name is None {
                    is_err_code(r, EINVAL) && final(conn)@ == old(conn)@
                } else if table_idx(old(conn)@.db, name->0) == -1 {
                    if config_flag_or(config.spec_bytes(), "force".spec_bytes(), false) {
                        r matches Ok(u) && final(conn)@ == old(conn)@
                    } else {
                        is_err_code(r, ENOENT) && final(conn)@ == old(conn)@
                    }
                } else if exists|i: int|
                    0 <= i < old(conn)@.cursors.len() && (#[trigger] old(conn)@.cursors[i]).alive
                        && old(conn)@.cursors[i].table == name->0 {
                    is_err_code(r, EBUSY) && final(conn)@ == old(conn)@
                } else {
                    r matches Ok(u) && final(conn)@ == with_db(
                        old(conn)@,
                        old(conn)@.db.remove(table_idx(old(conn)@.db, name->0)),
                    )
                }
            }),
    {
        if !conn.sess_ok(self.id) {
            return Err(Error::from_code(EINVAL));
        }
        if !validate_config(config, ConfigScope::DropTable) {
            return Err(Error::from_code(EINVAL));
        }
        let name = match parse_table_uri(uri) {
            None => {
                return Err(Error::from_code(EINVAL));
            },
            Some(n) => n,
        };
        let ti = match conn.db.find_table(name.as_slice()) {
            None => {
                if read_flag_or(config, "force".as_bytes(), false) {
                    return Ok(());
                }
                return Err(Error::from_code(ENOENT));
            },
            Some(ti) => ti,
        };
        let n = conn.cursors.len();
        let mut i: usize = 0;
        while i < n
            invariant
                i <= n,
                n == conn@.cursors.len(),
                forall|j: int|
                    0 <= j < i ==> !((#[trigger] conn@.cursors[j]).alive && conn@.cursors[j].table
                        == name@),
            decreases n - i,
        {
            proof {
                assert(conn@.cursors[i as int] == conn.cursors@[i as int]@);
            }
            if conn.cursors[i].alive && byte_eq(conn.cursors[i].table.as_slice(), name.as_slice()) {
                proof {
                    assert((#[trigger] conn@.cursors[i as int]).alive && conn@.cursors[i as int].table
                        == name@);
                }
                return Err(Error::from_code(EBUSY));
            }
            i = i + 1;
        }
        let ghost prev = conn@;
        conn.db.tables.remove(ti);
        proof {
            assert(conn@.db =~~= prev.db.remove(ti as int));
            assert(conn@ =~= with_db(prev, prev.db.remove(ti as int)));
            assert forall|a: int| 0 <= a < conn@.db.len() implies rows_sorted(
                #[trigger] conn@.db[a].rows,
            ) by {
                if a < ti as int {
                    assert(conn@.db[a] == prev.db[a]);
                } else {
                    assert(conn@.db[a] == prev.db[a + 1]);
                }
            }
            assert forall|a: int, b: int| 0 <= a < b < conn@.db.len() implies conn@.db[a].name
                != conn@.db[b].name by {
                let a0 = if a < ti as int { a } else { a + 1 };
                let b0 = if b < ti as int { b } else { b + 1 };
                assert(conn@.db[a] == prev.db[a0]);
                assert(conn@.db[b] == prev.db[b0]);
            }
        }
        Ok(())
    }

    /// Asks for the named table to be compacted: storage work with no
    /// observable effect on the rows.
    pub fn compact(&self, conn: &Connection, uri: &str, config: &str) -> (r: Result<(), Error>)
        ensures
            ({
                let name = table_uri_name(uri.spec_bytes());
                if !sess_live(conn@, self@) {
                    is_err_code(r, EINVAL)
                } else if !valid_config(config.spec_bytes(), ConfigScope::Compact)
                    || name is None {
                    is_err_code(r, EINVAL)
                } else if table_idx(conn@.db, name->0) == -1 {
                    is_err_code(r, ENOENT)
                } else {
                    r is Ok
                }
            }),
    {
        if !conn.sess_ok(self.id) {
            return Err(Error::from_code(EINVAL));
        }
        if !validate_config(config, ConfigScope::Compact) {
            return Err(Error::from_code(EINVAL));
        }
        let name = match parse_table_uri(uri) {
            None => {
                return Err(Error::from_code(EINVAL));
            },
            Some(n) => n,
        };
        match conn.db.find_table(name.as_slice()) {
            None => Err(Error::from_code(ENOENT)),
            Some(ti) => Ok(()),
        }
    }

    /// Applies a new option string to the session. The layer keeps no
    /// per-session options, so a well-formed string changes nothing.
    pub fn reconfigure(&self, conn: &Connection, config: &str) -> (r: Result<(), Error>)
        ensures
            ({
                if !sess_live(conn@, self@) {
                    is_err_code(r, EINVAL)
                } else if !valid_config(config.spec_bytes(), ConfigScope::SessionReconfigure) {
                    is_err_code(r, EINVAL)
                } else {
                    r is Ok
                }
            }),
    {
        if !conn.sess_ok(self.id) {
            return Err(Error::from_code(EINVAL));
        }
        if !validate_config(config, ConfigScope::SessionReconfigure) {
            return Err(Error::from_code(EINVAL));
        }
        Ok(())
    }

    /// Resets the session: every cursor of this session loses its staged
    /// key and value and its position.
    #[verifier::loop_isolation(false)]
    pub fn reset(&self, conn: &mut Connection) -> (r: Result<(), Error>)
        requires
            old(conn).wf(),
        ensures
            final(conn).wf(),
            ({
                let sid = self@;
                if !sess_live(old(conn)@, sid) {
                    is_err_code(r, EINVAL) && final(conn)@ == old(conn)@
                } else {
                    r matches Ok(u) && final(conn)@ == with_cursors(
                        old(conn)@,
                        old(conn)@.cursors.map_values(|c: CurV| cur_cleared(c, sid)),
                    )
                }
            }),
    {
        if !conn.sess_ok(self.id) {
            return Err(Error::from_code(EINVAL));
        }
        let ghost mid = conn@;
        let id = self.id;
        let n = conn.cursors.len();
        let mut i: usize = 0;
        while i < n
            invariant
                i <= n,
                n == conn@.cursors.len(),
                conn@.home == mid.home,
                conn@.is_new == mid.is_new,
                conn@.cfg == mid.cfg,
                conn@.db == mid.db,
                conn@.sessions == mid.sessions,
                forall|j: int|
                    0 <= j < i ==> conn@.cursors[j] == cur_cleared(
                        #[trigger] mid.cursors[j],
                        self@,
                    ),
                forall|j: int| i <= j < n ==> conn@.cursors[j] == #[trigger] mid.cursors[j],
            decreases n - i,
        {
            proof {
                assert(conn@.cursors[i as int] == conn.cursors@[i as int]@);
            }
            let ghost before = conn@;
            if conn.cursors[i].sess == id {
                let c = &mut conn.cursors[i];
                c.key = None;
                c.value = None;
                c.pos = None;
                proof {
                    assert(conn@.cursors =~= before.cursors.update(
                        i as int,
                        cur_cleared(before.cursors[i as int], self@),
                    ));
                    assert(conn@.cursors[i as int] == cur_cleared(mid.cursors[i as int], self@));
                    assert forall|j: int| 0 <= j < i implies conn@.cursors[j] == cur_cleared(
                        #[trigger] mid.cursors[j],
                        self@,
                    ) by {
                        assert(conn@.cursors[j] == before.cursors[j]);
                    }
                }
            } else {
                proof {
                    assert(conn@.cursors[i as int] == cur_cleared(mid.cursors[i as int], self@));
                }
            }
            i = i + 1;
        }
        proof {
            assert(conn@.cursors =~= mid.cursors.map_values(|c: CurV| cur_cleared(c, self@)));
            assert(conn@ =~= with_cursors(
                old(conn)@,
                old(conn)@.cursors.map_values(|c: CurV| cur_cleared(c, self@)),
            ));
            assert forall|j: int|
                0 <= j < conn@.cursors.len() implies 0 <= (#[trigger] conn@.cursors[j]).sess
                < conn@.sessions.len() && (conn@.cursors[j].alive
                ==> conn@.sessions[conn@.cursors[j].sess].alive) by {
                assert(conn@.cursors[j] == cur_cleared(old(conn)@.cursors[j], self@));
            }
        }
        Ok(())
    }

    /// Discards the session's snapshot and takes a fresh one, so later
    /// reads see what has been committed since the transaction began.
    /// Only a transaction that has written nothing may do so.
    pub fn reset_snapshot(&self, conn: &mut Connection) -> (r: Result<(), Error>)
        requires
            old(conn).wf(),
        ensures
            final(conn).wf(),
            ({
                let sid = self@;
                if !sess_live(old(conn)@, sid) {
                    is_err_code(r, EINVAL) && final(conn)@ == old(conn)@
                } else if old(conn)@.sessions[sid].txn is None {
                    is_err_code(r, EINVAL) && final(conn)@ == old(conn)@
                } else if old(conn)@.sessions[sid].txn->0.writes.len() != 0 {
                    is_err_code(r, EINVAL) && final(conn)@ == old(conn)@
                } else {
                    r matches Ok(u) && final(conn)@ == with_sessions(
                        old(conn)@,
                        old(conn)@.sessions.update(
                            sid,
                            SessV {
                                alive: true,
                                txn: Some(
                                    TxnV {
                                        snapshot: old(conn)@.db,
                                        writes: Seq::empty(),
                                        prepared: old(conn)@.sessions[sid].txn->0.prepared,
                                    },
                                ),
                            },
                        ),
                    )
                }
            }),
    {
        let id = self.id;
        if !conn.sess_ok(id) {
            return Err(Error::from_code(EINVAL));
        }
        proof {
            assert(conn@.sessions[id as int] == conn.sessions@[id as int]@);
        }
        let prepared = match &conn.sessions[id].txn {
            None => {
                return Err(Error::from_code(EINVAL));
            },
            Some(t) => {
                if t.writes.len() != 0 {
                    return Err(Error::from_code(EINVAL));
                }
                proof {
                    assert(old(conn)@.sessions[self@].txn->0.writes =~=
                        Seq::<WriteV>::empty());
                }
                t.prepared
            },
        };
        let snap = conn.db.duplicate();
        let s = &mut conn.sessions[id];
        s.txn = Some(TxnState { snapshot: snap, writes: Vec::new(), prepared });
        proof {
            assert(Seq::<WriteOp>::empty().map_values(|w: WriteOp| w@) =~=
                Seq::<WriteV>::empty());
            assert(conn@.sessions =~= old(conn)@.sessions.update(
                self@,
                SessV {
                    alive: true,
                    txn: Some(
                        TxnV {
                            snapshot: old(conn)@.db,
                            writes: Seq::empty(),
                            prepared: old(conn)@.sessions[self@].txn->0.prepared,
                        },
                    ),
                },
            ));
            assert(conn@ =~= with_sessions(old(conn)@, conn@.sessions));
            lemma_one_session_changed(old(conn)@, conn@, self@);
        }
        Ok(())
    }

    /// Begins a transaction on this session: its reads now see a snapshot
    /// of the committed tables. Fails if a transaction is already open
    /// here.
    pub fn begin_transaction(&self, conn: &mut Connection, config: &str) -> (r: Result<(), Error>)
        requires
            old(conn).wf(),
        ensures
            final(conn).wf(),
            ({
                let sid = self@;
                if !sess_live(old(conn)@, sid) {
                    is_err_code(r, EINVAL) && final(conn)@ == old(conn)@
                } else if !valid_config(config.spec_bytes(), ConfigScope::BeginTxn) {
                    is_err_code(r, EINVAL) && final(conn)@ == old(conn)@
                } else if old(conn)@.sessions[sid].txn is Some {
                    is_err_code(r, EINVAL) && final(conn)@ == old(conn)@
                } else {
                    r matches Ok(u) && final(conn)@ == with_sessions(
                        old(conn)@,
                        old(conn)@.sessions.update(
                            sid,
                            SessV {
                                alive: true,
                                txn: Some(
                                    TxnV {
                                        snapshot: old(conn)@.db,
                                        writes: Seq::empty(),
                                        prepared: false,
                                    },
                                ),
                            },
                        ),
                    )
                }
            }),
    {
        let id = self.id;
        if !conn.sess_ok(id) {
            return Err(Error::from_code(EINVAL));
        }
        if !validate_config(config, ConfigScope::BeginTxn) {
            return Err(Error::from_code(EINVAL));
        }
        proof {
            assert(conn@.sessions[id as int] == conn.sessions@[id as int]@);
        }
        if conn.sessions[id].txn.is_some() {
            return Err(Error::from_code(EINVAL));
        }
        let snap = conn.db.duplicate();
        let s = &mut conn.sessions[id];
        s.txn = Some(TxnState { snapshot: snap, writes: Vec::new(), prepared: false });
        proof {
            assert(Seq::<WriteOp>::empty().map_values(|w: WriteOp| w@) =~=
                Seq::<WriteV>::empty());
            assert(conn@.sessions =~= old(conn)@.sessions.update(
                self@,
                SessV {
                    alive: true,
                    txn: Some(
                        TxnV { snapshot: old(conn)@.db, writes: Seq::empty(), prepared: false },
                    ),
                },
            ));
            assert(conn@ =~= with_sessions(old(conn)@, conn@.sessions));
            lemma_one_session_changed(old(conn)@, conn@, self@);
        }
        Ok(())
    }

    /// Commits the session's transaction: its write log is applied to the
    /// committed tables, in order, and the transaction ends.
    #[verifier::loop_isolation(false)]
    pub fn commit_transaction(&self, conn: &mut Connection, config: &str) -> (r: Result<(), Error>)
        requires
            old(conn).wf(),
        ensures
            final(conn).wf(),
            ({
                let sid = self@;
                if !sess_live(old(conn)@, sid) {
                    is_err_code(r, EINVAL) && final(conn)@ == old(conn)@
                } else if !valid_config(config.spec_bytes(), ConfigScope::FinalizeTxn) {
                    is_err_code(r, EINVAL) && final(conn)@ == old(conn)@
                } else if old(conn)@.sessions[sid].txn is None {
                    is_err_code(r, EINVAL) && final(conn)@ == old(conn)@
                } else {
                    r matches Ok(u) && final(conn)@ == with_db(
                        with_sessions(
                            old(conn)@,
                            old(conn)@.sessions.update(sid, SessV { alive: true, txn: None }),
                        ),
                        apply_writes(old(conn)@.db, old(conn)@.sessions[sid].txn->0.writes),
                    )
                }
            }),
    {
        let id = self.id;
        if !conn.sess_ok(id) {
            return Err(Error::from_code(EINVAL));
        }
        if !validate_config(config, ConfigScope::FinalizeTxn) {
            return Err(Error::from_code(EINVAL));
        }
        proof {
            assert(conn@.sessions[id as int] == conn.sessions@[id as int]@);
        }
        let s = &mut conn.sessions[id];
        let t = match s.txn.take() {
            None => {
                proof {
                    assert(conn@.sessions =~= old(conn)@.sessions);
                    assert(conn@ =~= old(conn)@);
                }
                return Err(Error::from_code(EINVAL));
            },
            Some(t) => t,
        };
        let ghost w0 = t@.writes;
        proof {
            assert(conn@.sessions =~= old(conn)@.sessions.update(
                self@,
                SessV { alive: true, txn: None },
            ));
            lemma_one_session_changed(old(conn)@, conn@, self@);
            assert(w0 == old(conn)@.sessions[self@].txn->0.writes);
            assert(w0.skip(0) =~= w0);
        }
        let ghost mid = conn@;
        let n = t.writes.len();
        let mut i: usize = 0;
        while i < n
            invariant
                i <= n,
                n == w0.len(),
                conn@.home == mid.home,
                conn@.is_new == mid.is_new,
                conn@.cfg == mid.cfg,
                conn@.sessions == mid.sessions,
                conn@.cursors == mid.cursors,
                db_wf(conn@.db),
                apply_writes(mid.db, w0) == apply_writes(conn@.db, w0.skip(i as int)),
            decreases n - i,
        {
            let ghost dprev = conn@.db;
            proof {
                assert(w0[i as int] == t.writes@[i as int]@);
                assert(w0.skip(i as int)[0] == w0[i as int]);
                assert(w0.skip(i as int).skip(1) =~= w0.skip(i as int + 1));
            }
            let w = &t.writes[i];
            match conn.db.find_table(w.table.as_slice()) {
                None => {
                    proof {
                        assert(apply_write(dprev, w0[i as int]) == dprev);
                    }
                },
                Some(ti) => {
                    match &w.value {
                        Some(v) => {
                            let kc = copy_bytes(w.key.as_slice());
                            let vc = copy_bytes(v.as_slice());
                            db_upsert(&mut conn.db, ti, kc, vc);
                            proof {
                                assert(conn@.db == apply_write(dprev, w0[i as int]));
                            }
                        },
                        None => {
                            db_remove(&mut conn.db, ti, w.key.as_slice());
                            proof {
                                assert(conn@.db == apply_write(dprev, w0[i as int]));
                            }
                        },
                    }
                },
            }
            proof {
                assert(apply_writes(conn@.db, w0.skip(i as int + 1)) == apply_writes(
                    dprev,
                    w0.skip(i as int),
                ));
            }
            i = i + 1;
        }
        proof {
            assert(w0.skip(n as int) =~= Seq::<WriteV>::empty());
            assert(apply_writes(conn@.db, w0.skip(n as int)) == conn@.db);
            assert(conn@.db == apply_writes(mid.db, w0));
            assert(conn@ =~= with_db(
                with_sessions(
                    old(conn)@,
                    old(conn)@.sessions.update(self@, SessV { alive: true, txn: None }),
                ),
                apply_writes(old(conn)@.db, old(conn)@.sessions[self@].txn->0.writes),
            ));
        }
        Ok(())
    }

    /// Prepares the session's transaction: an intermediate step before
    /// commit that ends nothing — the transaction stays open.
    pub fn prepare_transaction(&self, conn: &mut Connection, config: &str) -> (r: Result<
        (),
        Error,
    >)
        requires
            old(conn).wf(),
        ensures
            final(conn).wf(),
            ({
                let sid = self@;
                if !sess_live(old(conn)@, sid) {
                    is_err_code(r, EINVAL) && final(conn)@ == old(conn)@
                } else if !valid_config(config.spec_bytes(), ConfigScope::FinalizeTxn) {
                    is_err_code(r, EINVAL) && final(conn)@ == old(conn)@
                } else if old(conn)@.sessions[sid].txn is None || old(
                    conn,
                )@.sessions[sid].txn->0.prepared {
                    is_err_code(r, EINVAL) && final(conn)@ == old(conn)@
                } else {
                    r matches Ok(u) && final(conn)@ == with_sessions(
                        old(conn)@,
                        old(conn)@.sessions.update(
                            sid,
                            SessV {
                                alive: true,
                                txn: Some(
                                    TxnV {
                                        snapshot: old(conn)@.sessions[sid].txn->0.snapshot,
                                        writes: old(conn)@.sessions[sid].txn->0.writes,
                                        prepared: true,
                                    },
                                ),
                            },
                        ),
                    )
                }
            }),
    {
        let id = self.id;
        if !conn.sess_ok(id) {
            return Err(Error::from_code(EINVAL));
        }
        if !validate_config(config, ConfigScope::FinalizeTxn) {
            return Err(Error::from_code(EINVAL));
        }
        proof {
            assert(conn@.sessions[id as int] == conn.sessions@[id as int]@);
        }
        let already = match &conn.sessions[id].txn {
            None => {
                return Err(Error::from_code(EINVAL));
            },
            Some(t) => t.prepared,
        };
        if already {
            return Err(Error::from_code(EINVAL));
        }
        let s = &mut conn.sessions[id];
        match &mut s.txn {
            Some(t) => {
                t.prepared = true;
            },
            None => {},
        }
        proof {
            assert(conn@.sessions =~= old(conn)@.sessions.update(
                self@,
                SessV {
                    alive: true,
                    txn: Some(
                        TxnV {
                            snapshot: old(conn)@.sessions[self@].txn->0.snapshot,
                            writes: old(conn)@.sessions[self@].txn->0.writes,
                            prepared: true,
                        },
                    ),
                },
            ));
            assert(conn@ =~= with_sessions(old(conn)@, conn@.sessions));
            lemma_one_session_changed(old(conn)@, conn@, self@);
        }
        Ok(())
    }

    /// Rolls the session's transaction back: the write log is discarded
    /// unapplied, and the transaction ends.
    pub fn rollback_transaction(&self, conn: &mut Connection, config: &str) -> (r: Result<
        (),
        Error,
    >)
        requires
            old(conn).wf(),
        ensures
            final(conn).wf(),
            ({
                let sid = self@;
                if !sess_live(old(conn)@, sid) {
                    is_err_code(r, EINVAL) && final(conn)@ == old(conn)@
                } else if !valid_config(config.spec_bytes(), ConfigScope::FinalizeTxn) {
                    is_err_code(r, EINVAL) && final(conn)@ == old(conn)@
                } else if old(conn)@.sessions[sid].txn is None {
                    is_err_code(r, EINVAL) && final(conn)@ == old(conn)@
                } else {
                    r matches Ok(u) && final(conn)@ == with_sessions(
                        old(conn)@,
                        old(conn)@.sessions.update(sid, SessV { alive: true, txn: None }),
                    )
                }
            }),
    {
        let id = self.id;
        if !conn.sess_ok(id) {
            return Err(Error::from_code(EINVAL));
        }
        if !validate_config(config, ConfigScope::FinalizeTxn) {
            return Err(Error::from_code(EINVAL));
        }
        proof {
            assert(conn@.sessions[id as int] == conn.sessions@[id as int]@);
        }
        if conn.sessions[id].txn.is_none() {
            return Err(Error::from_code(EINVAL));
        }
        let s = &mut conn.sessions[id];
        s.txn = None;
        proof {
            assert(conn@.sessions =~= old(conn)@.sessions.update(
                self@,
                SessV { alive: true, txn: None },
            ));
            assert(conn@ =~= with_sessions(old(conn)@, conn@.sessions));
            lemma_one_session_changed(old(conn)@, conn@, self@);
        }
        Ok(())
    }

    /// Opens a cursor over the named table for this session.
    ///
    /// The `overwrite` option, on by default, decides whether a later
    /// insert may replace an existing record.
    pub fn open_cursor(&self, conn: &mut Connection, uri: &str, config: &str) -> (r: Result<
        Cursor,
        Error,
    >)
        requires
            old(conn).wf(),
        ensures
            final(conn).wf(),
            ({
                let sid = self@;
                let name = table_uri_name(uri.spec_bytes());
                if !sess_live(old(conn)@, sid) {
                    is_err_code(r, EINVAL) && final(conn)@ == old(conn)@
                } else if !valid_config(config.spec_bytes(), ConfigScope::OpenCursor)
                    || name is None {
                    is_err_code(r, EINVAL) && final(conn)@ == old(conn)@
                } else if table_idx(old(conn)@.db, name->0) == -1 {
                    is_err_code(r, ENOENT) && final(conn)@ == old(conn)@
                } else {
                    &&& r matches Ok(c)
                    &&& r->Ok_0@ == old(conn)@.cursors.len()
                    &&& final(conn)@ == with_cursors(
                        old(conn)@,
                        old(conn)@.cursors.push(
                            CurV {
                                alive: true,
                                sess: sid,
                                table: name->0,
                                key: None,
                                value: None,
                                pos: None,
                                overwrite: config_flag_or(
                                    config.spec_bytes(),
                                    "overwrite".spec_bytes(),
                                    true,
                                ),
                                lower: None,
                                upper: None,
                            },
                        ),
                    )
                }
            }),
    {
        let id = self.id;
        if !conn.sess_ok(id) {
            return Err(Error::from_code(EINVAL));
        }
        if !validate_config(config, ConfigScope::OpenCursor) {
            return Err(Error::from_code(EINVAL));
        }
        let name = match parse_table_uri(uri) {
            None => {
                return Err(Error::from_code(EINVAL));
            },
            Some(n) => n,
        };
        if conn.db.find_table(name.as_slice()).is_none() {
            return Err(Error::from_code(ENOENT));
        }
        let overwrite = read_flag_or(config, "overwrite".as_bytes(), true);
        let cid = conn.cursors.len();
        let ghost prev = conn@;
        let ghost nm = name@;
        conn.cursors.push(
            CursorSlot {
                alive: true,
                sess: id,
                table: name,
                key: None,
                value: None,
                pos: None,
                overwrite,
                lower: None,
                upper: None,
            },
        );
        proof {
            assert(conn@.cursors =~= prev.cursors.push(
                CurV {
                    alive: true,
                    sess: self@,
                    table: nm,
                    key: None,
                    value: None,
                    pos: None,
                    overwrite,
                    lower: None,
                    upper: None,
                },
            ));
            assert(conn@ =~= with_cursors(prev, conn@.cursors));
            assert forall|j: int|
                0 <= j < conn@.cursors.len() implies 0 <= (#[trigger] conn@.cursors[j]).sess
                < conn@.sessions.len() && (conn@.cursors[j].alive
                ==> conn@.sessions[conn@.cursors[j].sess].alive) by {
                if j < prev.cursors.len() {
                    assert(conn@.cursors[j] == prev.cursors[j]);
                }
            }
        }
        Ok(Cursor { id: cid })
    }

    /// Begins a transaction and hands back its finalize-once handle,
    /// bound to this session.
    pub fn transaction(&self, conn: &mut Connection, config: &str) -> (r: Result<
        Transaction,
        Error,
    >)
        requires
            old(conn).wf(),
        ensures
            final(conn).wf(),
            ({
                let sid = self@;
                if !sess_live(old(conn)@, sid) {
                    is_err_code(r, EINVAL) && final(conn)@ == old(conn)@
                } else if !valid_config(config.spec_bytes(), ConfigScope::BeginTxn) {
                    is_err_code(r, EINVAL) && final(conn)@ == old(conn)@
                } else if old(conn)@.sessions[sid].txn is Some {
                    is_err_code(r, EINVAL) && final(conn)@ == old(conn)@
                } else {
                    &&& r matches Ok(t)
                    &&& r->Ok_0@.sess == sid
                    &&& !r->Ok_0@.finished
                    &&& final(conn)@ == with_sessions(
                        old(conn)@,
                        old(conn)@.sessions.update(
                            sid,
                            SessV {
                                alive: true,
                                txn: Some(
                                    TxnV {
                                        snapshot: old(conn)@.db,
                                        writes: Seq::empty(),
                                        prepared: false,
                                    },
                                ),
                            },
                        ),
                    )
                }
            }),
    {
        match self.begin_transaction(conn, config) {
            Err(e) => Err(e),
            Ok(u) => Ok(Transaction { sess: self.id, finished: false }),
        }
    }
}

/// A cursor slot with its staging replaced.
pub open spec fn cur_with(
    c: CurV,
    key: Option<Seq<u8>>,
    value: Option<Seq<u8>>,
    pos: Option<Seq<u8>>,
) -> CurV {
    CurV {
        alive: c.alive,
        sess: c.sess,
        table: c.table,
        key,
        value,
        pos,
        overwrite: c.overwrite,
        lower: c.lower,
        upper: c.upper,
    }
}

/// A cursor slot with the overwrite option replaced.
pub open spec fn cur_with_overwrite(c: CurV, overwrite: bool) -> CurV {
    CurV {
        alive: c.alive,
        sess: c.sess,
        table: c.table,
        key: c.key,
        value: c.value,
        pos: c.pos,
        overwrite,
        lower: c.lower,
        upper: c.upper,
    }
}

/// A cursor slot with its range bounds replaced.
pub open spec fn cur_with_bounds(c: CurV, lower: Option<Seq<u8>>, upper: Option<Seq<u8>>) -> CurV {
    CurV {
        alive: c.alive,
        sess: c.sess,
        table: c.table,
        key: c.key,
        value: c.value,
        pos: c.pos,
        overwrite: c.overwrite,
        lower,
        upper,
    }
}

/// Whether a key lies at or above a cursor's lower bound.
pub open spec fn in_lower(lower: Option<Seq<u8>>, k: Seq<u8>) -> bool {
    match lower {
        None => true,
        Some(l) => !lex_lt(k, l),
    }
}

/// Whether a key lies at or below a cursor's upper bound.
pub open spec fn in_upper(upper: Option<Seq<u8>>, k: Seq<u8>) -> bool {
    match upper {
        None => true,
        Some(u) => !lex_lt(u, k),
    }
}

/// The index a bounded forward step reaches: from the start the step may
/// jump to the lower bound, and a landing above the upper bound is the
/// end of the range.
pub open spec fn bounded_next_idx(
    rows: Seq<crate::table::RecordV>,
    pos: Option<Seq<u8>>,
    lower: Option<Seq<u8>>,
    upper: Option<Seq<u8>>,
) -> int {
    let n = if pos is None && lower is Some {
        if row_idx(rows, lower->0) >= 0 {
            row_idx(rows, lower->0)
        } else {
            next_idx(rows, Some(lower->0))
        }
    } else {
        next_idx(rows, pos)
    };
    if n == -1 {
        -1
    } else if !in_upper(upper, rows[n].key) {
        -1
    } else {
        n
    }
}

/// The index a bounded backward step reaches.
pub open spec fn bounded_prev_idx(
    rows: Seq<crate::table::RecordV>,
    pos: Option<Seq<u8>>,
    lower: Option<Seq<u8>>,
    upper: Option<Seq<u8>>,
) -> int {
    let n = if pos is None && upper is Some {
        if row_idx(rows, upper->0) >= 0 {
            row_idx(rows, upper->0)
        } else {
            prev_idx(rows, Some(upper->0))
        }
    } else {
        prev_idx(rows, pos)
    };
    if n == -1 {
        -1
    } else if !in_lower(lower, rows[n].key) {
        -1
    } else {
        n
    }
}

/// A transaction after one more write: the snapshot reflects it and the
/// log records it.
pub open spec fn txn_after_write(t: TxnV, w: WriteV) -> TxnV {
    TxnV { snapshot: apply_write(t.snapshot, w), writes: t.writes.push(w), prepared: t.prepared }
}

/// The whole connection after a session writes: under a transaction only
/// its snapshot and log move; otherwise the committed tables do.
pub open spec fn conn_after_write(c: ConnV, sid: int, w: WriteV) -> ConnV {
    match c.sessions[sid].txn {
        None => with_db(c, apply_write(c.db, w)),
        Some(t) => with_sessions(
            c,
            c.sessions.update(
                sid,
                SessV { alive: c.sessions[sid].alive, txn: Some(txn_after_write(t, w)) },
            ),
        ),
    }
}

impl Connection {
    /// The index of `name` among the tables the session sees.
    fn visible_find(&self, sid: usize, name: &[u8]) -> (r: Option<usize>)
        requires
            sid < self@.sessions.len(),
        ensures
            match r {
                Some(i) => table_idx(visible_db(self@, sid as int), name@) == i as int && i
                    < visible_db(self@, sid as int).len() && visible_db(self@, sid as int)[
                    i as int
                ].name == name@,
                None => table_idx(visible_db(self@, sid as int), name@) == -1,
            },
    {
        proof {
            assert(self@.sessions[sid as int] == self.sessions@[sid as int]@);
        }
        match &self.sessions[sid].txn {
            None => self.db.find_table(name),
            Some(t) => t.snapshot.find_table(name),
        }
    }

    /// The value the session sees under `key` in its `ti`-th visible
    /// table, copied out.
    fn visible_get(&self, sid: usize, ti: usize, key: &[u8]) -> (r: Option<Vec<u8>>)
        requires
            sid < self@.sessions.len(),
            ti < visible_db(self@, sid as int).len(),
        ensures
            match r {
                Some(v) => lookup(visible_db(self@, sid as int)[ti as int].rows, key@) == Some(
                    v@,
                ),
                None => lookup(visible_db(self@, sid as int)[ti as int].rows, key@) is None,
            },
    {
        proof {
            assert(self@.sessions[sid as int] == self.sessions@[sid as int]@);
        }
        match &self.sessions[sid].txn {
            None => {
                proof {
                    assert(self@.db[ti as int] == self.db.tables@[ti as int]@);
                }
                self.db.tables[ti].get(key)
            },
            Some(t) => {
                proof {
                    assert(t@.snapshot[ti as int] == t.snapshot.tables@[ti as int]@);
                }
                t.snapshot.tables[ti].get(key)
            },
        }
    }

    /// The index of the row keyed `key` in the session's `ti`-th visible
    /// table.
    fn visible_find_row(&self, sid: usize, ti: usize, key: &[u8]) -> (r: Option<usize>)
        requires
            sid < self@.sessions.len(),
            ti < visible_db(self@, sid as int).len(),
        ensures
            match r {
                Some(i) => row_idx(visible_db(self@, sid as int)[ti as int].rows, key@)
                    == i as int && i < visible_db(self@, sid as int)[ti as int].rows.len(),
                None => row_idx(visible_db(self@, sid as int)[ti as int].rows, key@) == -1,
            },
    {
        proof {
            assert(self@.sessions[sid as int] == self.sessions@[sid as int]@);
        }
        match &self.sessions[sid].txn {
            None => {
                proof {
                    assert(self@.db[ti as int] == self.db.tables@[ti as int]@);
                }
                self.db.tables[ti].find(key)
            },
            Some(t) => {
                proof {
                    assert(t@.snapshot[ti as int] == t.snapshot.tables@[ti as int]@);
                }
                t.snapshot.tables[ti].find(key)
            },
        }
    }

    /// The index a forward step reaches in the session's `ti`-th visible
    /// table.
    fn visible_next(&self, sid: usize, ti: usize, pos: &Option<Vec<u8>>) -> (r: Option<usize>)
        requires
            sid < self@.sessions.len(),
            ti < visible_db(self@, sid as int).len(),
        ensures
            match r {
                Some(i) => next_idx(
                    visible_db(self@, sid as int)[ti as int].rows,
                    opt_bytes(*pos),
                ) == i as int && i < visible_db(self@, sid as int)[ti as int].rows.len(),
                None => next_idx(
                    visible_db(self@, sid as int)[ti as int].rows,
                    opt_bytes(*pos),
                ) == -1,
            },
    {
        proof {
            assert(self@.sessions[sid as int] == self.sessions@[sid as int]@);
        }
        match &self.sessions[sid].txn {
            None => {
                proof {
                    assert(self@.db[ti as int] == self.db.tables@[ti as int]@);
                }
                self.db.tables[ti].next_after(pos)
            },
            Some(t) => {
                proof {
                    assert(t@.snapshot[ti as int] == t.snapshot.tables@[ti as int]@);
                }
                t.snapshot.tables[ti].next_after(pos)
            },
        }
    }

    /// The index a backward step reaches in the session's `ti`-th visible
    /// table.
    fn visible_prev(&self, sid: usize, ti: usize, pos: &Option<Vec<u8>>) -> (r: Option<usize>)
        requires
            sid < self@.sessions.len(),
            ti < visible_db(self@, sid as int).len(),
        ensures
            match r {
                Some(i) => prev_idx(
                    visible_db(self@, sid as int)[ti as int].rows,
                    opt_bytes(*pos),
                ) == i as int && i < visible_db(self@, sid as int)[ti as int].rows.len(),
                None => prev_idx(
                    visible_db(self@, sid as int)[ti as int].rows,
                    opt_bytes(*pos),
                ) == -1,
            },
    {
        proof {
            assert(self@.sessions[sid as int] == self.sessions@[sid as int]@);
        }
        match &self.sessions[sid].txn {
            None => {
                proof {
                    assert(self@.db[ti as int] == self.db.tables@[ti as int]@);
                }
                self.db.tables[ti].prev_before(pos)
            },
            Some(t) => {
                proof {
                    assert(t@.snapshot[ti as int] == t.snapshot.tables@[ti as int]@);
                }
                t.snapshot.tables[ti].prev_before(pos)
            },
        }
    }

    /// The `i`-th row of the session's `ti`-th visible table, copied out.
    fn visible_row(&self, sid: usize, ti: usize, i: usize) -> (r: (Vec<u8>, Vec<u8>))
        requires
            sid < self@.sessions.len(),
            ti < visible_db(self@, sid as int).len(),
            i < visible_db(self@, sid as int)[ti as int].rows.len(),
        ensures
            r.0@ == visible_db(self@, sid as int)[ti as int].rows[i as int].key,
            r.1@ == visible_db(self@, sid as int)[ti as int].rows[i as int].value,
    {
        proof {
            assert(self@.sessions[sid as int] == self.sessions@[sid as int]@);
        }
        match &self.sessions[sid].txn {
            None => {
                proof {
                    assert(self@.db[ti as int] == self.db.tables@[ti as int]@);
                    assert(self@.db[ti as int].rows[i as int] == self.db.tables@[
                        ti as int
                    ].rows@[i as int]@);
                }
                let t = &self.db.tables[ti];
                (copy_bytes(t.rows[i].key.as_slice()), copy_bytes(t.rows[i].value.as_slice()))
            },
            Some(tx) => {
                proof {
                    assert(tx@.snapshot[ti as int] == tx.snapshot.tables@[ti as int]@);
                    assert(tx@.snapshot[ti as int].rows[i as int] == tx.snapshot.tables@[
                        ti as int
                    ].rows@[i as int]@);
                }
                let t = &tx.snapshot.tables[ti];
                (copy_bytes(t.rows[i].key.as_slice()), copy_bytes(t.rows[i].value.as_slice()))
            },
        }
    }

    /// Performs one write as the session: into the transaction's snapshot
    /// and log when one is open, else straight into the committed tables.
    fn visible_write(
        &mut self,
        sid: usize,
        ti: usize,
        table: Vec<u8>,
        key: Vec<u8>,
        value: Option<Vec<u8>>,
    )
        requires
            old(self).wf(),
            sid < old(self)@.sessions.len(),
            table_idx(visible_db(old(self)@, sid as int), table@) == ti as int,
            ti < visible_db(old(self)@, sid as int).len(),
        ensures
            final(self).wf(),
            final(self)@ == conn_after_write(
                old(self)@,
                sid as int,
                WriteV { table: table@, key: key@, value: opt_bytes(value) },
            ),
    {
        let ghost w = WriteV { table: table@, key: key@, value: opt_bytes(value) };
        proof {
            assert(self@.sessions[sid as int] == self.sessions@[sid as int]@);
            lemma_apply_write_wf(visible_db(old(self)@, sid as int), w);
        }
        match &mut self.sessions[sid].txn {
            None => {
                match value {
                    Some(v) => {
                        db_upsert(&mut self.db, ti, key, v);
                    },
                    None => {
                        db_remove(&mut self.db, ti, key.as_slice());
                    },
                }
                proof {
                    assert(self@.sessions =~= old(self)@.sessions);
                    assert(self@.db == apply_write(old(self)@.db, w));
                    assert(self@ =~= with_db(old(self)@, apply_write(old(self)@.db, w)));
                    assert forall|j: int|
                        0 <= j < self@.cursors.len() implies 0 <= (
                    #[trigger] self@.cursors[j]).sess < self@.sessions.len() && (
                    self@.cursors[j].alive ==> self@.sessions[self@.cursors[j].sess].alive) by {
                        assert(self@.cursors[j] == old(self)@.cursors[j]);
                    }
                }
            },
            Some(t) => {
                match &value {
                    Some(v) => {
                        let kc = copy_bytes(key.as_slice());
                        let vc = copy_bytes(v.as_slice());
                        db_upsert(&mut t.snapshot, ti, kc, vc);
                    },
                    None => {
                        db_remove(&mut t.snapshot, ti, key.as_slice());
                    },
                }
                t.writes.push(WriteOp { table, key, value });
                proof {
                    assert(t@.writes =~= old(self)@.sessions[sid as int].txn->0.writes.push(w));
                    assert(t@.snapshot == apply_write(
                        old(self)@.sessions[sid as int].txn->0.snapshot,
                        w,
                    ));
                    assert(t@ == txn_after_write(old(self)@.sessions[sid as int].txn->0, w));
                    assert(self@.sessions =~= old(self)@.sessions.update(
                        sid as int,
                        SessV {
                            alive: old(self)@.sessions[sid as int].alive,
                            txn: Some(txn_after_write(old(self)@.sessions[sid as int].txn->0, w)),
                        },
                    ));
                    assert(self@ =~= with_sessions(old(self)@, self@.sessions));
                    lemma_one_session_changed(old(self)@, self@, sid as int);
                }
            },
        }
    }
}

impl Cursor {
    /// Stages `key` as the cursor's key for the next operation. No engine
    /// round trip happens: the key only sits in the cursor.
    pub fn set_key(&self, conn: &mut Connection, key: &str)
        requires
            old(conn).wf(),
            cur_live(old(conn)@, self@),
        ensures
            final(conn).wf(),
            final(conn)@ == with_cursors(
                old(conn)@,
                old(conn)@.cursors.update(
                    self@,
                    cur_with(
                        old(conn)@.cursors[self@],
                        Some(key.spec_bytes()),
                        old(conn)@.cursors[self@].value,
                        old(conn)@.cursors[self@].pos,
                    ),
                ),
            ),
    {
        proof {
            assert(conn@.cursors[self@] == conn.cursors@[self.id as int]@);
        }
        let kb = key.as_bytes_vec();
        let c = &mut conn.cursors[self.id];
        c.key = Some(kb);
        proof {
            assert(conn@.cursors =~= old(conn)@.cursors.update(
                self@,
                cur_with(
                    old(conn)@.cursors[self@],
                    Some(key.spec_bytes()),
                    old(conn)@.cursors[self@].value,
                    old(conn)@.cursors[self@].pos,
                ),
            ));
            assert(conn@ =~= with_cursors(old(conn)@, conn@.cursors));
            lemma_one_cursor_changed(old(conn)@, conn@, self@);
        }
    }

    /// Stages `value` as the cursor's value for the next operation.
    pub fn set_value(&self, conn: &mut Connection, value: &str)
        requires
            old(conn).wf(),
            cur_live(old(conn)@, self@),
        ensures
            final(conn).wf(),
            final(conn)@ == with_cursors(
                old(conn)@,
                old(conn)@.cursors.update(
                    self@,
                    cur_with(
                        old(conn)@.cursors[self@],
                        old(conn)@.cursors[self@].key,
                        Some(value.spec_bytes()),
                        old(conn)@.cursors[self@].pos,
                    ),
                ),
            ),
    {
        proof {
            assert(conn@.cursors[self@] == conn.cursors@[self.id as int]@);
        }
        let vb = value.as_bytes_vec();
        let c = &mut conn.cursors[self.id];
        c.value = Some(vb);
        proof {
            assert(conn@.cursors =~= old(conn)@.cursors.update(
                self@,
                cur_with(
                    old(conn)@.cursors[self@],
                    old(conn)@.cursors[self@].key,
                    Some(value.spec_bytes()),
                    old(conn)@.cursors[self@].pos,
                ),
            ));
            assert(conn@ =~= with_cursors(old(conn)@, conn@.cursors));
            lemma_one_cursor_changed(old(conn)@, conn@, self@);
        }
    }

    /// Stages a key and a value together.
    pub fn set_key_value(&self, conn: &mut Connection, key: &str, value: &str)
        requires
            old(conn).wf(),
            cur_live(old(conn)@, self@),
        ensures
            final(conn).wf(),
            final(conn)@ == with_cursors(
                old(conn)@,
                old(conn)@.cursors.update(
                    self@,
                    cur_with(
                        old(conn)@.cursors[self@],
                        Some(key.spec_bytes()),
                        Some(value.spec_bytes()),
                        old(conn)@.cursors[self@].pos,
                    ),
                ),
            ),
    {
        self.set_key(conn, key);
        self.set_value(conn, value);
        proof {
            assert(conn@.cursors =~= old(conn)@.cursors.update(
                self@,
                cur_with(
                    old(conn)@.cursors[self@],
                    Some(key.spec_bytes()),
                    Some(value.spec_bytes()),
                    old(conn)@.cursors[self@].pos,
                ),
            ));
            assert(conn@ =~= with_cursors(old(conn)@, conn@.cursors));
        }
    }

    /// The staged or copied-out key and value, owned by the caller: their
    /// validity does not hang on any later cursor operation.
    pub fn get_raw_key_value(&self, conn: &Connection) -> (r: Result<
        (Option<Vec<u8>>, Option<Vec<u8>>),
        Error,
    >)
        ensures
            ({
                if !cur_live(conn@, self@) {
                    is_err_code(r, EINVAL)
                } else {
                    &&& r matches Ok(p)
                    &&& opt_bytes(r->Ok_0.0) == conn@.cursors[self@].key
                    &&& opt_bytes(r->Ok_0.1) == conn@.cursors[self@].value
                }
            }),
    {
        if !conn.cur_ok(self.id) {
            return Err(Error::from_code(EINVAL));
        }
        proof {
            assert(conn@.cursors[self@] == conn.cursors@[self.id as int]@);
        }
        let k = match &conn.cursors[self.id].key {
            None => None,
            Some(kv) => Some(copy_bytes(kv.as_slice())),
        };
        let v = match &conn.cursors[self.id].value {
            None => None,
            Some(vv) => Some(copy_bytes(vv.as_slice())),
        };
        Ok((k, v))
    }
}

/// An optional byte string copied into owned buffers.
fn copy_opt(o: &Option<Vec<u8>>) -> (r: Option<Vec<u8>>)
    ensures
        opt_bytes(r) == opt_bytes(*o),
{
    match o {
        None => None,
        Some(v) => Some(copy_bytes(v.as_slice())),
    }
}

impl Connection {
    /// How many rows the session's `ti`-th visible table holds.
    fn visible_len(&self, sid: usize, ti: usize) -> (r: usize)
        requires
            sid < self@.sessions.len(),
            ti < visible_db(self@, sid as int).len(),
        ensures
            r == visible_db(self@, sid as int)[ti as int].rows.len(),
    {
        proof {
            assert(self@.sessions[sid as int] == self.sessions@[sid as int]@);
        }
        match &self.sessions[sid].txn {
            None => {
                proof {
                    assert(self@.db[ti as int] == self.db.tables@[ti as int]@);
                }
                self.db.tables[ti].rows.len()
            },
            Some(t) => {
                proof {
                    assert(t@.snapshot[ti as int] == t.snapshot.tables@[ti as int]@);
                }
                t.snapshot.tables[ti].rows.len()
            },
        }
    }
}

impl Cursor {
    /// Looks the staged key up among what the cursor's session sees. On
    /// success the cursor stands on the record and holds a copy of its
    /// value; an absent key is the not-found sentinel and the cursor ends
    /// unpositioned.
    pub fn search(&self, conn: &mut Connection) -> (r: Result<(), Error>)
        requires
            old(conn).wf(),
        ensures
            final(conn).wf(),
            ({
                let cid = self@;
                let c = old(conn)@.cursors[cid];
                let ti = table_idx(visible_db(old(conn)@, c.sess), c.table);
                if !cur_live(old(conn)@, cid) {
                    is_err_code(r, EINVAL) && final(conn)@ == old(conn)@
                } else if c.key is None {
                    is_err_code(r, EINVAL) && final(conn)@ == old(conn)@
                } else if ti == -1 {
                    is_err_code(r, ENOENT) && final(conn)@ == old(conn)@
                } else if !(in_lower(c.lower, c.key->0) && in_upper(c.upper, c.key->0)) {
                    is_err_code(r, WT_NOTFOUND) && final(conn)@ == old(conn)@
                } else {
                    match lookup(visible_db(old(conn)@, c.sess)[ti].rows, c.key->0) {
                        Some(v) => r matches Ok(u) && final(conn)@ == with_cursors(
                            old(conn)@,
                            old(conn)@.cursors.update(cid, cur_with(c, c.key, Some(v), c.key)),
                        ),
                        None => is_err_code(r, WT_NOTFOUND) && final(conn)@ == with_cursors(
                            old(conn)@,
                            old(conn)@.cursors.update(cid, cur_with(c, c.key, None, None)),
                        ),
                    }
                }
            }),
    {
        let id = self.id;
        if !conn.cur_ok(id) {
            return Err(Error::from_code(EINVAL));
        }
        proof {
            assert(conn@.cursors[self@] == conn.cursors@[id as int]@);
        }
        let kc = match &conn.cursors[id].key {
            None => {
                return Err(Error::from_code(EINVAL));
            },
            Some(k) => copy_bytes(k.as_slice()),
        };
        let sid = conn.cursors[id].sess;
        let tc = copy_bytes(conn.cursors[id].table.as_slice());
        let ti = match conn.visible_find(sid, tc.as_slice()) {
            None => {
                return Err(Error::from_code(ENOENT));
            },
            Some(ti) => ti,
        };
        let out_of_bounds = {
            let below = match &conn.cursors[id].lower {
                None => false,
                Some(l) => crate::order::byte_lt(kc.as_slice(), l.as_slice()),
            };
            let above = match &conn.cursors[id].upper {
                None => false,
                Some(u) => crate::order::byte_lt(u.as_slice(), kc.as_slice()),
            };
            below || above
        };
        if out_of_bounds {
            return Err(Error::from_code(WT_NOTFOUND));
        }
        match conn.visible_get(sid, ti, kc.as_slice()) {
            Some(v) => {
                let pos = copy_bytes(kc.as_slice());
                let c = &mut conn.cursors[id];
                c.value = Some(v);
                c.pos = Some(pos);
                proof {
                    assert(conn@.cursors =~= old(conn)@.cursors.update(
                        self@,
                        cur_with(
                            old(conn)@.cursors[self@],
                            old(conn)@.cursors[self@].key,
                            conn@.cursors[self@].value,
                            old(conn)@.cursors[self@].key,
                        ),
                    ));
                    assert(conn@ =~= with_cursors(old(conn)@, conn@.cursors));
                    lemma_one_cursor_changed(old(conn)@, conn@, self@);
                }
                Ok(())
            },
            None => {
                let c = &mut conn.cursors[id];
                c.value = None;
                c.pos = None;
                proof {
                    assert(conn@.cursors =~= old(conn)@.cursors.update(
                        self@,
                        cur_with(
                            old(conn)@.cursors[self@],
                            old(conn)@.cursors[self@].key,
                            None,
                            None,
                        ),
                    ));
                    assert(conn@ =~= with_cursors(old(conn)@, conn@.cursors));
                    lemma_one_cursor_changed(old(conn)@, conn@, self@);
                }
                Err(Error::from_code(WT_NOTFOUND))
            },
        }
    }

    /// Sets or clears a range bound from the staged key.
    ///
    /// With `action=clear` both bounds go; otherwise — `action=set`, the
    /// default — `bound=lower` or `bound=upper` takes the staged key as
    /// that inclusive bound. The bounds confine `search`, `next` and
    /// `prev`: a forward scan starts no earlier than the lower bound and
    /// ends at the upper one, and an exact search outside the range is
    /// the not-found sentinel. `search_near` does not consult them. The
    /// bounds stay until cleared or the cursor is closed.
    pub fn bound(&self, conn: &mut Connection, config: &str) -> (r: Result<(), Error>)
        requires
            old(conn).wf(),
        ensures
            final(conn).wf(),
            ({
                let cid = self@;
                let c = old(conn)@.cursors[cid];
                let opts = config.spec_bytes();
                let act = crate::config::config_text(opts, "action".spec_bytes());
                let which = crate::config::config_text(opts, "bound".spec_bytes());
                if !cur_live(old(conn)@, cid) {
                    is_err_code(r, EINVAL) && final(conn)@ == old(conn)@
                } else if !valid_config(opts, ConfigScope::Bound) {
                    is_err_code(r, EINVAL) && final(conn)@ == old(conn)@
                } else if act == Some("clear".spec_bytes()) {
                    r matches Ok(u) && final(conn)@ == with_cursors(
                        old(conn)@,
                        old(conn)@.cursors.update(cid, cur_with_bounds(c, None, None)),
                    )
                } else if !(act is None || act == Some("set".spec_bytes())) {
                    is_err_code(r, EINVAL) && final(conn)@ == old(conn)@
                } else if c.key is None {
                    is_err_code(r, EINVAL) && final(conn)@ == old(conn)@
                } else if which == Some("lower".spec_bytes()) {
                    r matches Ok(u) && final(conn)@ == with_cursors(
                        old(conn)@,
                        old(conn)@.cursors.update(
                            cid,
                            cur_with_bounds(c, Some(c.key->0), c.upper),
                        ),
                    )
                } else if which == Some("upper".spec_bytes()) {
                    r matches Ok(u) && final(conn)@ == with_cursors(
                        old(conn)@,
                        old(conn)@.cursors.update(
                            cid,
                            cur_with_bounds(c, c.lower, Some(c.key->0)),
                        ),
                    )
                } else {
                    is_err_code(r, EINVAL) && final(conn)@ == old(conn)@
                }
            }),
    {
        let id = self.id;
        if !conn.cur_ok(id) {
            return Err(Error::from_code(EINVAL));
        }
        if !validate_config(config, ConfigScope::Bound) {
            return Err(Error::from_code(EINVAL));
        }
        proof {
            assert(conn@.cursors[self@] == conn.cursors@[id as int]@);
        }
        let act = crate::config::read_text(config, "action".as_bytes());
        let clear = match &act {
            Some(a) => byte_eq(a.as_slice(), "clear".as_bytes()),
            None => false,
        };
        if clear {
            let c = &mut conn.cursors[id];
            c.lower = None;
            c.upper = None;
            proof {
                assert(conn@.cursors =~= old(conn)@.cursors.update(
                    self@,
                    cur_with_bounds(old(conn)@.cursors[self@], None, None),
                ));
                assert(conn@ =~= with_cursors(old(conn)@, conn@.cursors));
                lemma_one_cursor_changed(old(conn)@, conn@, self@);
            }
            return Ok(());
        }
        let set_act = match &act {
            None => true,
            Some(a) => byte_eq(a.as_slice(), "set".as_bytes()),
        };
        if !set_act {
            return Err(Error::from_code(EINVAL));
        }
        let kc = match &conn.cursors[id].key {
            None => {
                return Err(Error::from_code(EINVAL));
            },
            Some(k) => copy_bytes(k.as_slice()),
        };
        let which = match crate::config::read_text(config, "bound".as_bytes()) {
            None => {
                return Err(Error::from_code(EINVAL));
            },
            Some(w) => w,
        };
        if byte_eq(which.as_slice(), "lower".as_bytes()) {
            let c = &mut conn.cursors[id];
            c.lower = Some(kc);
            proof {
                assert(conn@.cursors =~= old(conn)@.cursors.update(
                    self@,
                    cur_with_bounds(
                        old(conn)@.cursors[self@],
                        Some(old(conn)@.cursors[self@].key->0),
                        old(conn)@.cursors[self@].upper,
                    ),
                ));
                assert(conn@ =~= with_cursors(old(conn)@, conn@.cursors));
                lemma_one_cursor_changed(old(conn)@, conn@, self@);
            }
            Ok(())
        } else if byte_eq(which.as_slice(), "upper".as_bytes()) {
            let c = &mut conn.cursors[id];
            c.upper = Some(kc);
            proof {
                assert(conn@.cursors =~= old(conn)@.cursors.update(
                    self@,
                    cur_with_bounds(
                        old(conn)@.cursors[self@],
                        old(conn)@.cursors[self@].lower,
                        Some(old(conn)@.cursors[self@].key->0),
                    ),
                ));
                assert(conn@ =~= with_cursors(old(conn)@, conn@.cursors));
                lemma_one_cursor_changed(old(conn)@, conn@, self@);
            }
            Ok(())
        } else {
            Err(Error::from_code(EINVAL))
        }
    }

    /// Looks the staged key up, or failing that the nearest visible key.
    ///
    /// An exact match reports equal; otherwise the cursor lands on the
    /// closest greater key if one exists, else the closest smaller one,
    /// and the report says how the landed-on key stands relative to the
    /// one asked for. An empty view is the not-found sentinel.
    pub fn search_near(&self, conn: &mut Connection) -> (r: Result<CompareStatus, Error>)
        requires
            old(conn).wf(),
        ensures
            final(conn).wf(),
            ({
                let cid = self@;
                let c = old(conn)@.cursors[cid];
                let ti = table_idx(visible_db(old(conn)@, c.sess), c.table);
                if !cur_live(old(conn)@, cid) {
                    is_err_code(r, EINVAL) && final(conn)@ == old(conn)@
                } else if c.key is None {
                    is_err_code(r, EINVAL) && final(conn)@ == old(conn)@
                } else if ti == -1 {
                    is_err_code(r, ENOENT) && final(conn)@ == old(conn)@
                } else {
                    let rows = visible_db(old(conn)@, c.sess)[ti].rows;
                    let k = c.key->0;
                    if lookup(rows, k) is Some {
                        r matches Ok(cs) && (r->Ok_0 is Equal) && final(conn)@ == with_cursors(
                            old(conn)@,
                            old(conn)@.cursors.update(
                                cid,
                                cur_with(c, c.key, Some(lookup(rows, k)->0), c.key),
                            ),
                        )
                    } else if next_idx(rows, Some(k)) != -1 {
                        let n = next_idx(rows, Some(k));
                        r matches Ok(cs) && (r->Ok_0 is GreaterThan) && final(conn)@
                            == with_cursors(
                            old(conn)@,
                            old(conn)@.cursors.update(
                                cid,
                                cur_with(
                                    c,
                                    Some(rows[n].key),
                                    Some(rows[n].value),
                                    Some(rows[n].key),
                                ),
                            ),
                        )
                    } else if prev_idx(rows, Some(k)) != -1 {
                        let n = prev_idx(rows, Some(k));
                        r matches Ok(cs) && (r->Ok_0 is LessThan) && final(conn)@ == with_cursors(
                            old(conn)@,
                            old(conn)@.cursors.update(
                                cid,
                                cur_with(
                                    c,
                                    Some(rows[n].key),
                                    Some(rows[n].value),
                                    Some(rows[n].key),
                                ),
                            ),
                        )
                    } else {
                        is_err_code(r, WT_NOTFOUND) && final(conn)@ == with_cursors(
                            old(conn)@,
                            old(conn)@.cursors.update(cid, cur_with(c, c.key, None, None)),
                        )
                    }
                }
            }),
    {
        let id = self.id;
        if !conn.cur_ok(id) {
            return Err(Error::from_code(EINVAL));
        }
        proof {
            assert(conn@.cursors[self@] == conn.cursors@[id as int]@);
        }
        let kc = match &conn.cursors[id].key {
            None => {
                return Err(Error::from_code(EINVAL));
            },
            Some(k) => copy_bytes(k.as_slice()),
        };
        let sid = conn.cursors[id].sess;
        let tc = copy_bytes(conn.cursors[id].table.as_slice());
        let ti = match conn.visible_find(sid, tc.as_slice()) {
            None => {
                return Err(Error::from_code(ENOENT));
            },
            Some(ti) => ti,
        };
        match conn.visible_get(sid, ti, kc.as_slice()) {
            Some(v) => {
                let pos = copy_bytes(kc.as_slice());
                let c = &mut conn.cursors[id];
                c.value = Some(v);
                c.pos = Some(pos);
                proof {
                    assert(conn@.cursors =~= old(conn)@.cursors.update(
                        self@,
                        cur_with(
                            old(conn)@.cursors[self@],
                            old(conn)@.cursors[self@].key,
                            conn@.cursors[self@].value,
                            old(conn)@.cursors[self@].key,
                        ),
                    ));
                    assert(conn@ =~= with_cursors(old(conn)@, conn@.cursors));
                    lemma_one_cursor_changed(old(conn)@, conn@, self@);
                }
                return Ok(CompareStatus::Equal);
            },
            None => {},
        }
        let anchor = Some(kc);
        match conn.visible_next(sid, ti, &anchor) {
            Some(n) => {
                let (k, v) = conn.visible_row(sid, ti, n);
                let p = copy_bytes(k.as_slice());
                let c = &mut conn.cursors[id];
                c.key = Some(k);
                c.value = Some(v);
                c.pos = Some(p);
                proof {
                    let rows = visible_db(old(conn)@, old(conn)@.cursors[self@].sess)[table_idx(
                        visible_db(old(conn)@, old(conn)@.cursors[self@].sess),
                        old(conn)@.cursors[self@].table,
                    )].rows;
                    assert(conn@.cursors =~= old(conn)@.cursors.update(
                        self@,
                        cur_with(
                            old(conn)@.cursors[self@],
                            Some(rows[n as int].key),
                            Some(rows[n as int].value),
                            Some(rows[n as int].key),
                        ),
                    ));
                    assert(conn@ =~= with_cursors(old(conn)@, conn@.cursors));
                    lemma_one_cursor_changed(old(conn)@, conn@, self@);
                }
                return Ok(CompareStatus::GreaterThan);
            },
            None => {},
        }
        match conn.visible_prev(sid, ti, &anchor) {
            Some(n) => {
                let (k, v) = conn.visible_row(sid, ti, n);
                let p = copy_bytes(k.as_slice());
                let c = &mut conn.cursors[id];
                c.key = Some(k);
                c.value = Some(v);
                c.pos = Some(p);
                proof {
                    let rows = visible_db(old(conn)@, old(conn)@.cursors[self@].sess)[table_idx(
                        visible_db(old(conn)@, old(conn)@.cursors[self@].sess),
                        old(conn)@.cursors[self@].table,
                    )].rows;
                    assert(conn@.cursors =~= old(conn)@.cursors.update(
                        self@,
                        cur_with(
                            old(conn)@.cursors[self@],
                            Some(rows[n as int].key),
                            Some(rows[n as int].value),
                            Some(rows[n as int].key),
                        ),
                    ));
                    assert(conn@ =~= with_cursors(old(conn)@, conn@.cursors));
                    lemma_one_cursor_changed(old(conn)@, conn@, self@);
                }
                return Ok(CompareStatus::LessThan);
            },
            None => {},
        }
        let c = &mut conn.cursors[id];
        c.value = None;
        c.pos = None;
        proof {
            assert(conn@.cursors =~= old(conn)@.cursors.update(
                self@,
                cur_with(
                    old(conn)@.cursors[self@],
                    old(conn)@.cursors[self@].key,
                    None,
                    None,
                ),
            ));
            assert(conn@ =~= with_cursors(old(conn)@, conn@.cursors));
            lemma_one_cursor_changed(old(conn)@, conn@, self@);
        }
        Err(Error::from_code(WT_NOTFOUND))
    }

    /// Stores the staged key and value as a record.
    ///
    /// With overwrite on — the default — an existing record is replaced;
    /// with it off the insert of an existing key is refused as a
    /// duplicate. Afterwards the cursor is unpositioned with nothing
    /// staged. Under a transaction the write goes to its snapshot and
    /// log; otherwise it is committed at once.
    pub fn insert(&self, conn: &mut Connection) -> (r: Result<(), Error>)
        requires
            old(conn).wf(),
        ensures
            final(conn).wf(),
            ({
                let cid = self@;
                let c = old(conn)@.cursors[cid];
                let ti = table_idx(visible_db(old(conn)@, c.sess), c.table);
                if !cur_live(old(conn)@, cid) {
                    is_err_code(r, EINVAL) && final(conn)@ == old(conn)@
                } else if c.key is None || c.value is None {
                    is_err_code(r, EINVAL) && final(conn)@ == old(conn)@
                } else if ti == -1 {
                    is_err_code(r, ENOENT) && final(conn)@ == old(conn)@
                } else if !c.overwrite && lookup(
                    visible_db(old(conn)@, c.sess)[ti].rows,
                    c.key->0,
                ) is Some {
                    is_err_code(r, WT_DUPLICATE_KEY) && final(conn)@ == old(conn)@
                } else {
                    r matches Ok(u) && final(conn)@ == with_cursors(
                        conn_after_write(
                            old(conn)@,
                            c.sess,
                            WriteV { table: c.table, key: c.key->0, value: Some(c.value->0) },
                        ),
                        old(conn)@.cursors.update(cid, cur_with(c, None, None, None)),
                    )
                }
            }),
    {
        let id = self.id;
        if !conn.cur_ok(id) {
            return Err(Error::from_code(EINVAL));
        }
        proof {
            assert(conn@.cursors[self@] == conn.cursors@[id as int]@);
        }
        let kc = match &conn.cursors[id].key {
            None => {
                return Err(Error::from_code(EINVAL));
            },
            Some(k) => copy_bytes(k.as_slice()),
        };
        let vc = match &conn.cursors[id].value {
            None => {
                return Err(Error::from_code(EINVAL));
            },
            Some(v) => copy_bytes(v.as_slice()),
        };
        let sid = conn.cursors[id].sess;
        let overwrite = conn.cursors[id].overwrite;
        let tc = copy_bytes(conn.cursors[id].table.as_slice());
        let ti = match conn.visible_find(sid, tc.as_slice()) {
            None => {
                return Err(Error::from_code(ENOENT));
            },
            Some(ti) => ti,
        };
        if !overwrite {
            if conn.visible_get(sid, ti, kc.as_slice()).is_some() {
                return Err(Error::from_code(WT_DUPLICATE_KEY));
            }
        }
        conn.visible_write(sid, ti, tc, kc, Some(vc));
        let ghost midv = conn@;
        let c = &mut conn.cursors[id];
        c.key = None;
        c.value = None;
        c.pos = None;
        proof {
            assert(midv.cursors[self@] == old(conn)@.cursors[self@]);
            assert(conn@.cursors =~= old(conn)@.cursors.update(
                self@,
                cur_with(old(conn)@.cursors[self@], None, None, None),
            ));
            assert(conn@ =~= with_cursors(midv, conn@.cursors));
            lemma_one_cursor_changed(midv, conn@, self@);
        }
        Ok(())
    }

    /// Replaces the record under the staged key with the staged value.
    ///
    /// With overwrite off a missing record is the not-found sentinel;
    /// with it on — the default — the record is stored either way.
    pub fn update(&self, conn: &mut Connection) -> (r: Result<(), Error>)
        requires
            old(conn).wf(),
        ensures
            final(conn).wf(),
            ({
                let cid = self@;
                let c = old(conn)@.cursors[cid];
                let ti = table_idx(visible_db(old(conn)@, c.sess), c.table);
                if !cur_live(old(conn)@, cid) {
                    is_err_code(r, EINVAL) && final(conn)@ == old(conn)@
                } else if c.key is None || c.value is None {
                    is_err_code(r, EINVAL) && final(conn)@ == old(conn)@
                } else if ti == -1 {
                    is_err_code(r, ENOENT) && final(conn)@ == old(conn)@
                } else if !c.overwrite && lookup(
                    visible_db(old(conn)@, c.sess)[ti].rows,
                    c.key->0,
                ) is None {
                    is_err_code(r, WT_NOTFOUND) && final(conn)@ == old(conn)@
                } else {
                    r matches Ok(u) && final(conn)@ == with_cursors(
                        conn_after_write(
                            old(conn)@,
                            c.sess,
                            WriteV { table: c.table, key: c.key->0, value: Some(c.value->0) },
                        ),
                        old(conn)@.cursors.update(cid, cur_with(c, None, None, None)),
                    )
                }
            }),
    {
        let id = self.id;
        if !conn.cur_ok(id) {
            return Err(Error::from_code(EINVAL));
        }
        proof {
            assert(conn@.cursors[self@] == conn.cursors@[id as int]@);
        }
        let kc = match &conn.cursors[id].key {
            None => {
                return Err(Error::from_code(EINVAL));
            },
            Some(k) => copy_bytes(k.as_slice()),
        };
        let vc = match &conn.cursors[id].value {
            None => {
                return Err(Error::from_code(EINVAL));
            },
            Some(v) => copy_bytes(v.as_slice()),
        };
        let sid = conn.cursors[id].sess;
        let overwrite = conn.cursors[id].overwrite;
        let tc = copy_bytes(conn.cursors[id].table.as_slice());
        let ti = match conn.visible_find(sid, tc.as_slice()) {
            None => {
                return Err(Error::from_code(ENOENT));
            },
            Some(ti) => ti,
        };
        if !overwrite {
            if conn.visible_get(sid, ti, kc.as_slice()).is_none() {
                return Err(Error::from_code(WT_NOTFOUND));
            }
        }
        conn.visible_write(sid, ti, tc, kc, Some(vc));
        let ghost midv = conn@;
        let c = &mut conn.cursors[id];
        c.key = None;
        c.value = None;
        c.pos = None;
        proof {
            assert(midv.cursors[self@] == old(conn)@.cursors[self@]);
            assert(conn@.cursors =~= old(conn)@.cursors.update(
                self@,
                cur_with(old(conn)@.cursors[self@], None, None, None),
            ));
            assert(conn@ =~= with_cursors(midv, conn@.cursors));
            lemma_one_cursor_changed(midv, conn@, self@);
        }
        Ok(())
    }

    /// Removes the record under the staged key.
    ///
    /// A missing record is the not-found sentinel when overwrite is off;
    /// with it on — the default — removing nothing succeeds and changes
    /// nothing. Afterwards the cursor is unpositioned with nothing staged.
    pub fn remove(&self, conn: &mut Connection) -> (r: Result<(), Error>)
        requires
            old(conn).wf(),
        ensures
            final(conn).wf(),
            ({
                let cid = self@;
                let c = old(conn)@.cursors[cid];
                let ti = table_idx(visible_db(old(conn)@, c.sess), c.table);
                if !cur_live(old(conn)@, cid) {
                    is_err_code(r, EINVAL) && final(conn)@ == old(conn)@
                } else if c.key is None {
                    is_err_code(r, EINVAL) && final(conn)@ == old(conn)@
                } else if ti == -1 {
                    is_err_code(r, ENOENT) && final(conn)@ == old(conn)@
                } else if lookup(visible_db(old(conn)@, c.sess)[ti].rows, c.key->0) is None {
                    if c.overwrite {
                        r matches Ok(u) && final(conn)@ == with_cursors(
                            old(conn)@,
                            old(conn)@.cursors.update(cid, cur_with(c, None, None, None)),
                        )
                    } else {
                        is_err_code(r, WT_NOTFOUND) && final(conn)@ == old(conn)@
                    }
                } else {
                    r matches Ok(u) && final(conn)@ == with_cursors(
                        conn_after_write(
                            old(conn)@,
                            c.sess,
                            WriteV { table: c.table, key: c.key->0, value: None },
                        ),
                        old(conn)@.cursors.update(cid, cur_with(c, None, None, None)),
                    )
                }
            }),
    {
        let id = self.id;
        if !conn.cur_ok(id) {
            return Err(Error::from_code(EINVAL));
        }
        proof {
            assert(conn@.cursors[self@] == conn.cursors@[id as int]@);
        }
        let kc = match &conn.cursors[id].key {
            None => {
                return Err(Error::from_code(EINVAL));
            },
            Some(k) => copy_bytes(k.as_slice()),
        };
        let sid = conn.cursors[id].sess;
        let overwrite = conn.cursors[id].overwrite;
        let tc = copy_bytes(conn.cursors[id].table.as_slice());
        let ti = match conn.visible_find(sid, tc.as_slice()) {
            None => {
                return Err(Error::from_code(ENOENT));
            },
            Some(ti) => ti,
        };
        if conn.visible_get(sid, ti, kc.as_slice()).is_none() {
            if overwrite {
                let c = &mut conn.cursors[id];
                c.key = None;
                c.value = None;
                c.pos = None;
                proof {
                    assert(conn@.cursors =~= old(conn)@.cursors.update(
                        self@,
                        cur_with(old(conn)@.cursors[self@], None, None, None),
                    ));
                    assert(conn@ =~= with_cursors(old(conn)@, conn@.cursors));
                    lemma_one_cursor_changed(old(conn)@, conn@, self@);
                }
                return Ok(());
            }
            return Err(Error::from_code(WT_NOTFOUND));
        }
        conn.visible_write(sid, ti, tc, kc, None);
        let ghost midv = conn@;
        let c = &mut conn.cursors[id];
        c.key = None;
        c.value = None;
        c.pos = None;
        proof {
            assert(midv.cursors[self@] == old(conn)@.cursors[self@]);
            assert(conn@.cursors =~= old(conn)@.cursors.update(
                self@,
                cur_with(old(conn)@.cursors[self@], None, None, None),
            ));
            assert(conn@ =~= with_cursors(midv, conn@.cursors));
            lemma_one_cursor_changed(midv, conn@, self@);
        }
        Ok(())
    }

    /// Steps to the next visible record in ascending key order: the first
    /// record from the start, the first strictly greater key afterwards.
    /// Past the last record the step is the not-found sentinel and the
    /// cursor keeps its place, so every further step reports the same.
    pub fn next(&self, conn: &mut Connection) -> (r: Result<(), Error>)
        requires
            old(conn).wf(),
        ensures
            final(conn).wf(),
            ({
                let cid = self@;
                let c = old(conn)@.cursors[cid];
                let ti = table_idx(visible_db(old(conn)@, c.sess), c.table);
                if !cur_live(old(conn)@, cid) {
                    is_err_code(r, EINVAL) && final(conn)@ == old(conn)@
                } else if ti == -1 {
                    is_err_code(r, ENOENT) && final(conn)@ == old(conn)@
                } else {
                    let rows = visible_db(old(conn)@, c.sess)[ti].rows;
                    let n = bounded_next_idx(rows, c.pos, c.lower, c.upper);
                    if n == -1 {
                        is_err_code(r, WT_NOTFOUND) && final(conn)@ == old(conn)@
                    } else {
                        r matches Ok(u) && final(conn)@ == with_cursors(
                            old(conn)@,
                            old(conn)@.cursors.update(
                                cid,
                                cur_with(
                                    c,
                                    Some(rows[n].key),
                                    Some(rows[n].value),
                                    Some(rows[n].key),
                                ),
                            ),
                        )
                    }
                }
            }),
    {
        let id = self.id;
        if !conn.cur_ok(id) {
            return Err(Error::from_code(EINVAL));
        }
        proof {
            assert(conn@.cursors[self@] == conn.cursors@[id as int]@);
        }
        let sid = conn.cursors[id].sess;
        let tc = copy_bytes(conn.cursors[id].table.as_slice());
        let ti = match conn.visible_find(sid, tc.as_slice()) {
            None => {
                return Err(Error::from_code(ENOENT));
            },
            Some(ti) => ti,
        };
        let pos = copy_opt(&conn.cursors[id].pos);
        let lower = copy_opt(&conn.cursors[id].lower);
        let upper = copy_opt(&conn.cursors[id].upper);
        let candidate = if pos.is_none() && lower.is_some() {
            let l = match &lower {
                Some(l) => copy_bytes(l.as_slice()),
                None => Vec::new(),
            };
            match conn.visible_find_row(sid, ti, l.as_slice()) {
                Some(i) => Some(i),
                None => conn.visible_next(sid, ti, &lower),
            }
        } else {
            conn.visible_next(sid, ti, &pos)
        };
        match candidate {
            None => Err(Error::from_code(WT_NOTFOUND)),
            Some(n) => {
                let above_upper = match &upper {
                    None => false,
                    Some(u) => {
                        let (k0, _v0) = conn.visible_row(sid, ti, n);
                        crate::order::byte_lt(u.as_slice(), k0.as_slice())
                    },
                };
                if above_upper {
                    return Err(Error::from_code(WT_NOTFOUND));
                }
                let (k, v) = conn.visible_row(sid, ti, n);
                let p = copy_bytes(k.as_slice());
                let c = &mut conn.cursors[id];
                c.key = Some(k);
                c.value = Some(v);
                c.pos = Some(p);
                proof {
                    let rows = visible_db(old(conn)@, old(conn)@.cursors[self@].sess)[table_idx(
                        visible_db(old(conn)@, old(conn)@.cursors[self@].sess),
                        old(conn)@.cursors[self@].table,
                    )].rows;
                    assert(conn@.cursors =~= old(conn)@.cursors.update(
                        self@,
                        cur_with(
                            old(conn)@.cursors[self@],
                            Some(rows[n as int].key),
                            Some(rows[n as int].value),
                            Some(rows[n as int].key),
                        ),
                    ));
                    assert(conn@ =~= with_cursors(old(conn)@, conn@.cursors));
                    lemma_one_cursor_changed(old(conn)@, conn@, self@);
                }
                Ok(())
            },
        }
    }

    /// Steps to the previous visible record in descending key order: the
    /// last record from the start, the last strictly smaller key
    /// afterwards.
    pub fn prev(&self, conn: &mut Connection) -> (r: Result<(), Error>)
        requires
            old(conn).wf(),
        ensures
            final(conn).wf(),
            ({
                let cid = self@;
                let c = old(conn)@.cursors[cid];
                let ti = table_idx(visible_db(old(conn)@, c.sess), c.table);
                if !cur_live(old(conn)@, cid) {
                    is_err_code(r, EINVAL) && final(conn)@ == old(conn)@
                } else if ti == -1 {
                    is_err_code(r, ENOENT) && final(conn)@ == old(conn)@
                } else {
                    let rows = visible_db(old(conn)@, c.sess)[ti].rows;
                    let n = bounded_prev_idx(rows, c.pos, c.lower, c.upper);
                    if n == -1 {
                        is_err_code(r, WT_NOTFOUND) && final(conn)@ == old(conn)@
                    } else {
                        r matches Ok(u) && final(conn)@ == with_cursors(
                            old(conn)@,
                            old(conn)@.cursors.update(
                                cid,
                                cur_with(
                                    c,
                                    Some(rows[n].key),
                                    Some(rows[n].value),
                                    Some(rows[n].key),
                                ),
                            ),
                        )
                    }
                }
            }),
    {
        let id = self.id;
        if !conn.cur_ok(id) {
            return Err(Error::from_code(EINVAL));
        }
        proof {
            assert(conn@.cursors[self@] == conn.cursors@[id as int]@);
        }
        let sid = conn.cursors[id].sess;
        let tc = copy_bytes(conn.cursors[id].table.as_slice());
        let ti = match conn.visible_find(sid, tc.as_slice()) {
            None => {
                return Err(Error::from_code(ENOENT));
            },
            Some(ti) => ti,
        };
        let pos = copy_opt(&conn.cursors[id].pos);
        let lower = copy_opt(&conn.cursors[id].lower);
        let upper = copy_opt(&conn.cursors[id].upper);
        let candidate = if pos.is_none() && upper.is_some() {
            let u = match &upper {
                Some(u) => copy_bytes(u.as_slice()),
                None => Vec::new(),
            };
            match conn.visible_find_row(sid, ti, u.as_slice()) {
                Some(i) => Some(i),
                None => conn.visible_prev(sid, ti, &upper),
            }
        } else {
            conn.visible_prev(sid, ti, &pos)
        };
        match candidate {
            None => Err(Error::from_code(WT_NOTFOUND)),
            Some(n) => {
                let below_lower = match &lower {
                    None => false,
                    Some(l) => {
                        let (k0, _v0) = conn.visible_row(sid, ti, n);
                        crate::order::byte_lt(k0.as_slice(), l.as_slice())
                    },
                };
                if below_lower {
                    return Err(Error::from_code(WT_NOTFOUND));
                }
                let (k, v) = conn.visible_row(sid, ti, n);
                let p = copy_bytes(k.as_slice());
                let c = &mut conn.cursors[id];
                c.key = Some(k);
                c.value = Some(v);
                c.pos = Some(p);
                proof {
                    let rows = visible_db(old(conn)@, old(conn)@.cursors[self@].sess)[table_idx(
                        visible_db(old(conn)@, old(conn)@.cursors[self@].sess),
                        old(conn)@.cursors[self@].table,
                    )].rows;
                    assert(conn@.cursors =~= old(conn)@.cursors.update(
                        self@,
                        cur_with(
                            old(conn)@.cursors[self@],
                            Some(rows[n as int].key),
                            Some(rows[n as int].value),
                            Some(rows[n as int].key),
                        ),
                    ));
                    assert(conn@ =~= with_cursors(old(conn)@, conn@.cursors));
                    lemma_one_cursor_changed(old(conn)@, conn@, self@);
                }
                Ok(())
            },
        }
    }

    /// Stages the largest visible key, without positioning the cursor on
    /// its record; an empty table is the not-found sentinel.
    pub fn largest_key(&self, conn: &mut Connection) -> (r: Result<(), Error>)
        requires
            old(conn).wf(),
        ensures
            final(conn).wf(),
            ({
                let cid = self@;
                let c = old(conn)@.cursors[cid];
                let ti = table_idx(visible_db(old(conn)@, c.sess), c.table);
                if !cur_live(old(conn)@, cid) {
                    is_err_code(r, EINVAL) && final(conn)@ == old(conn)@
                } else if ti == -1 {
                    is_err_code(r, ENOENT) && final(conn)@ == old(conn)@
                } else if visible_db(old(conn)@, c.sess)[ti].rows.len() == 0 {
                    is_err_code(r, WT_NOTFOUND) && final(conn)@ == old(conn)@
                } else {
                    let rows = visible_db(old(conn)@, c.sess)[ti].rows;
                    r matches Ok(u) && final(conn)@ == with_cursors(
                        old(conn)@,
                        old(conn)@.cursors.update(
                            cid,
                            cur_with(c, Some(rows[rows.len() - 1].key), None, None),
                        ),
                    )
                }
            }),
    {
        let id = self.id;
        if !conn.cur_ok(id) {
            return Err(Error::from_code(EINVAL));
        }
        proof {
            assert(conn@.cursors[self@] == conn.cursors@[id as int]@);
        }
        let sid = conn.cursors[id].sess;
        let tc = copy_bytes(conn.cursors[id].table.as_slice());
        let ti = match conn.visible_find(sid, tc.as_slice()) {
            None => {
                return Err(Error::from_code(ENOENT));
            },
            Some(ti) => ti,
        };
        let len = conn.visible_len(sid, ti);
        if len == 0 {
            return Err(Error::from_code(WT_NOTFOUND));
        }
        let (k, _v) = conn.visible_row(sid, ti, len - 1);
        let c = &mut conn.cursors[id];
        c.key = Some(k);
        c.value = None;
        c.pos = None;
        proof {
            let rows = visible_db(old(conn)@, old(conn)@.cursors[self@].sess)[table_idx(
                visible_db(old(conn)@, old(conn)@.cursors[self@].sess),
                old(conn)@.cursors[self@].table,
            )].rows;
            assert(conn@.cursors =~= old(conn)@.cursors.update(
                self@,
                cur_with(old(conn)@.cursors[self@], Some(rows[rows.len() - 1].key), None, None),
            ));
            assert(conn@ =~= with_cursors(old(conn)@, conn@.cursors));
            lemma_one_cursor_changed(old(conn)@, conn@, self@);
        }
        Ok(())
    }

    /// Write-locks the record under the staged key for the session's
    /// transaction; the record must exist and a transaction must be open.
    pub fn reserve(&self, conn: &Connection) -> (r: Result<(), Error>)
        requires
            conn.wf(),
        ensures
            ({
                let cid = self@;
                let c = conn@.cursors[cid];
                let ti = table_idx(visible_db(conn@, c.sess), c.table);
                if !cur_live(conn@, cid) {
                    is_err_code(r, EINVAL)
                } else if conn@.sessions[c.sess].txn is None {
                    is_err_code(r, EINVAL)
                } else if c.key is None {
                    is_err_code(r, EINVAL)
                } else if ti == -1 {
                    is_err_code(r, ENOENT)
                } else if lookup(visible_db(conn@, c.sess)[ti].rows, c.key->0) is None {
                    is_err_code(r, WT_NOTFOUND)
                } else {
                    r is Ok
                }
            }),
    {
        let id = self.id;
        if !conn.cur_ok(id) {
            return Err(Error::from_code(EINVAL));
        }
        proof {
            assert(conn@.cursors[self@] == conn.cursors@[id as int]@);
        }
        let sid = conn.cursors[id].sess;
        proof {
            assert(conn@.sessions[sid as int] == conn.sessions@[sid as int]@);
        }
        if conn.sessions[sid].txn.is_none() {
            return Err(Error::from_code(EINVAL));
        }
        let kc = match &conn.cursors[id].key {
            None => {
                return Err(Error::from_code(EINVAL));
            },
            Some(k) => copy_bytes(k.as_slice()),
        };
        let tc = copy_bytes(conn.cursors[id].table.as_slice());
        let ti = match conn.visible_find(sid, tc.as_slice()) {
            None => {
                return Err(Error::from_code(ENOENT));
            },
            Some(ti) => ti,
        };
        if conn.visible_get(sid, ti, kc.as_slice()).is_none() {
            return Err(Error::from_code(WT_NOTFOUND));
        }
        Ok(())
    }

    /// Unpositions the cursor and clears its staged key and value.
    pub fn reset(&self, conn: &mut Connection) -> (r: Result<(), Error>)
        requires
            old(conn).wf(),
        ensures
            final(conn).wf(),
            ({
                if !cur_live(old(conn)@, self@) {
                    is_err_code(r, EINVAL) && final(conn)@ == old(conn)@
                } else {
                    r matches Ok(u) && final(conn)@ == with_cursors(
                        old(conn)@,
                        old(conn)@.cursors.update(
                            self@,
                            cur_with(old(conn)@.cursors[self@], None, None, None),
                        ),
                    )
                }
            }),
    {
        let id = self.id;
        if !conn.cur_ok(id) {
            return Err(Error::from_code(EINVAL));
        }
        proof {
            assert(conn@.cursors[self@] == conn.cursors@[id as int]@);
        }
        let c = &mut conn.cursors[id];
        c.key = None;
        c.value = None;
        c.pos = None;
        proof {
            assert(conn@.cursors =~= old(conn)@.cursors.update(
                self@,
                cur_with(old(conn)@.cursors[self@], None, None, None),
            ));
            assert(conn@ =~= with_cursors(old(conn)@, conn@.cursors));
            lemma_one_cursor_changed(old(conn)@, conn@, self@);
        }
        Ok(())
    }

    /// Applies a new option string to the cursor; only the overwrite
    /// switch is kept.
    pub fn reconfigure(&self, conn: &mut Connection, config: &str) -> (r: Result<(), Error>)
        requires
            old(conn).wf(),
        ensures
            final(conn).wf(),
            ({
                if !cur_live(old(conn)@, self@) {
                    is_err_code(r, EINVAL) && final(conn)@ == old(conn)@
                } else if !valid_config(config.spec_bytes(), ConfigScope::CursorReconfigure) {
                    is_err_code(r, EINVAL) && final(conn)@ == old(conn)@
                } else {
                    r matches Ok(u) && final(conn)@ == with_cursors(
                        old(conn)@,
                        old(conn)@.cursors.update(
                            self@,
                            cur_with_overwrite(
                                old(conn)@.cursors[self@],
                                config_flag_or(
                                    config.spec_bytes(),
                                    "overwrite".spec_bytes(),
                                    old(conn)@.cursors[self@].overwrite,
                                ),
                            ),
                        ),
                    )
                }
            }),
    {
        let id = self.id;
        if !conn.cur_ok(id) {
            return Err(Error::from_code(EINVAL));
        }
        if !validate_config(config, ConfigScope::CursorReconfigure) {
            return Err(Error::from_code(EINVAL));
        }
        proof {
            assert(conn@.cursors[self@] == conn.cursors@[id as int]@);
        }
        let overwrite = read_flag_or(config, "overwrite".as_bytes(), conn.cursors[id].overwrite);
        let c = &mut conn.cursors[id];
        c.overwrite = overwrite;
        proof {
            assert(conn@.cursors =~= old(conn)@.cursors.update(
                self@,
                cur_with_overwrite(old(conn)@.cursors[self@], overwrite),
            ));
            assert(conn@ =~= with_cursors(old(conn)@, conn@.cursors));
            lemma_one_cursor_changed(old(conn)@, conn@, self@);
        }
        Ok(())
    }

    /// How this cursor's staged key stands relative to another's in the
    /// key order. Both cursors must be live, range over the same data
    /// source, and have keys staged.
    pub fn compare(&self, conn: &Connection, other: &Cursor) -> (r: Result<CompareStatus, Error>)
        ensures
            ({
                let a = conn@.cursors[self@];
                let b = conn@.cursors[other@];
                if !cur_live(conn@, self@) || !cur_live(conn@, other@) {
                    is_err_code(r, EINVAL)
                } else if a.table != b.table {
                    is_err_code(r, EINVAL)
                } else if a.key is None || b.key is None {
                    is_err_code(r, EINVAL)
                } else {
                    &&& r matches Ok(cs)
                    &&& (r->Ok_0 is LessThan) == lex_lt(a.key->0, b.key->0)
                    &&& (r->Ok_0 is Equal) == (a.key->0 == b.key->0)
                    &&& (r->Ok_0 is GreaterThan) == lex_lt(b.key->0, a.key->0)
                }
            }),
    {
        if !conn.cur_ok(self.id) || !conn.cur_ok(other.id) {
            return Err(Error::from_code(EINVAL));
        }
        proof {
            assert(conn@.cursors[self@] == conn.cursors@[self.id as int]@);
            assert(conn@.cursors[other@] == conn.cursors@[other.id as int]@);
        }
        if !byte_eq(
            conn.cursors[self.id].table.as_slice(),
            conn.cursors[other.id].table.as_slice(),
        ) {
            return Err(Error::from_code(EINVAL));
        }
        let ka = match &conn.cursors[self.id].key {
            None => {
                return Err(Error::from_code(EINVAL));
            },
            Some(k) => copy_bytes(k.as_slice()),
        };
        let kb = match &conn.cursors[other.id].key {
            None => {
                return Err(Error::from_code(EINVAL));
            },
            Some(k) => copy_bytes(k.as_slice()),
        };
        Ok(crate::order::byte_cmp(ka.as_slice(), kb.as_slice()))
    }

    /// Whether this cursor's staged key equals another's.
    pub fn equals(&self, conn: &Connection, other: &Cursor) -> (r: Result<bool, Error>)
        ensures
            ({
                let a = conn@.cursors[self@];
                let b = conn@.cursors[other@];
                if !cur_live(conn@, self@) || !cur_live(conn@, other@) {
                    is_err_code(r, EINVAL)
                } else if a.table != b.table {
                    is_err_code(r, EINVAL)
                } else if a.key is None || b.key is None {
                    is_err_code(r, EINVAL)
                } else {
                    r matches Ok(e) && e == (a.key->0 == b.key->0)
                }
            }),
    {
        match self.compare(conn, other) {
            Err(e) => Err(e),
            Ok(cs) => Ok(matches!(cs, CompareStatus::Equal)),
        }
    }

    /// Opens an independent duplicate: a second cursor over the same data
    /// source with the same staging and position, moving on its own from
    /// here.
    pub fn duplicate(&self, conn: &mut Connection, config: &str) -> (r: Result<Cursor, Error>)
        requires
            old(conn).wf(),
        ensures
            final(conn).wf(),
            ({
                let c = old(conn)@.cursors[self@];
                if !cur_live(old(conn)@, self@) {
                    is_err_code(r, EINVAL) && final(conn)@ == old(conn)@
                } else if !valid_config(config.spec_bytes(), ConfigScope::OpenCursor) {
                    is_err_code(r, EINVAL) && final(conn)@ == old(conn)@
                } else {
                    &&& r matches Ok(d)
                    &&& r->Ok_0@ == old(conn)@.cursors.len()
                    &&& final(conn)@ == with_cursors(
                        old(conn)@,
                        old(conn)@.cursors.push(
                            CurV {
                                alive: true,
                                sess: c.sess,
                                table: c.table,
                                key: c.key,
                                value: c.value,
                                pos: c.pos,
                                overwrite: config_flag_or(
                                    config.spec_bytes(),
                                    "overwrite".spec_bytes(),
                                    c.overwrite,
                                ),
                                lower: c.lower,
                                upper: c.upper,
                            },
                        ),
                    )
                }
            }),
    {
        let id = self.id;
        if !conn.cur_ok(id) {
            return Err(Error::from_code(EINVAL));
        }
        if !validate_config(config, ConfigScope::OpenCursor) {
            return Err(Error::from_code(EINVAL));
        }
        proof {
            assert(conn@.cursors[self@] == conn.cursors@[id as int]@);
        }
        let overwrite = read_flag_or(config, "overwrite".as_bytes(), conn.cursors[id].overwrite);
        let sess = conn.cursors[id].sess;
        let table = copy_bytes(conn.cursors[id].table.as_slice());
        let key = copy_opt(&conn.cursors[id].key);
        let value = copy_opt(&conn.cursors[id].value);
        let pos = copy_opt(&conn.cursors[id].pos);
        let lower = copy_opt(&conn.cursors[id].lower);
        let upper = copy_opt(&conn.cursors[id].upper);
        let cid = conn.cursors.len();
        let ghost prev = conn@;
        conn.cursors.push(
            CursorSlot { alive: true, sess, table, key, value, pos, overwrite, lower, upper },
        );
        proof {
            assert(conn@.cursors =~= prev.cursors.push(
                CurV {
                    alive: true,
                    sess: prev.cursors[self@].sess,
                    table: prev.cursors[self@].table,
                    key: prev.cursors[self@].key,
                    value: prev.cursors[self@].value,
                    pos: prev.cursors[self@].pos,
                    overwrite,
                    lower: prev.cursors[self@].lower,
                    upper: prev.cursors[self@].upper,
                },
            ));
            assert(conn@ =~= with_cursors(prev, conn@.cursors));
            assert forall|j: int|
                0 <= j < conn@.cursors.len() implies 0 <= (#[trigger] conn@.cursors[j]).sess
                < conn@.sessions.len() && (conn@.cursors[j].alive
                ==> conn@.sessions[conn@.cursors[j].sess].alive) by {
                if j < prev.cursors.len() {
                    assert(conn@.cursors[j] == prev.cursors[j]);
                } else {
                    assert(conn@.cursors[j].sess == prev.cursors[self@].sess);
                }
            }
        }
        Ok(Cursor { id: cid })
    }

    /// Closes the cursor: its slot dies, its session and the connection
    /// stand as they were.
    pub fn close(self, conn: &mut Connection) -> (r: Result<(), Error>)
        requires
            old(conn).wf(),
        ensures
            final(conn).wf(),
            ({
                if !cur_live(old(conn)@, self@) {
                    is_err_code(r, EINVAL) && final(conn)@ == old(conn)@
                } else {
                    r matches Ok(u) && final(conn)@ == with_cursors(
                        old(conn)@,
                        old(conn)@.cursors.update(
                            self@,
                            cur_killed(
                                old(conn)@.cursors[self@],
                                old(conn)@.cursors[self@].sess,
                            ),
                        ),
                    )
                }
            }),
    {
        let id = self.id;
        if !conn.cur_ok(id) {
            return Err(Error::from_code(EINVAL));
        }
        proof {
            assert(conn@.cursors[self@] == conn.cursors@[id as int]@);
        }
        let c = &mut conn.cursors[id];
        c.alive = false;
        c.key = None;
        c.value = None;
        c.pos = None;
        proof {
            assert(conn@.cursors =~= old(conn)@.cursors.update(
                self@,
                cur_killed(old(conn)@.cursors[self@], old(conn)@.cursors[self@].sess),
            ));
            assert(conn@ =~= with_cursors(old(conn)@, conn@.cursors));
            lemma_one_cursor_changed(old(conn)@, conn@, self@);
        }
        Ok(())
    }
}

impl Transaction {
    /// Commits: the session-level commit runs, and on success this handle
    /// is finished and will never issue another finalize. On failure the
    /// transaction stays active for the caller to retry or roll back.
    pub fn commit(&mut self, conn: &mut Connection, config: &str) -> (r: Result<(), Error>)
        requires
            old(conn).wf(),
        ensures
            final(conn).wf(),
            ({
                let sid = old(self)@.sess;
                if old(self)@.finished {
                    is_err_code(r, EINVAL) && final(conn)@ == old(conn)@ && final(self)@ == old(
                        self,
                    )@
                } else if !sess_live(old(conn)@, sid) {
                    is_err_code(r, EINVAL) && final(conn)@ == old(conn)@ && final(self)@ == old(
                        self,
                    )@
                } else if !valid_config(config.spec_bytes(), ConfigScope::FinalizeTxn) {
                    is_err_code(r, EINVAL) && final(conn)@ == old(conn)@ && final(self)@ == old(
                        self,
                    )@
                } else if old(conn)@.sessions[sid].txn is None {
                    is_err_code(r, EINVAL) && final(conn)@ == old(conn)@ && final(self)@ == old(
                        self,
                    )@
                } else {
                    &&& r matches Ok(u)
                    &&& final(conn)@ == with_db(
                        with_sessions(
                            old(conn)@,
                            old(conn)@.sessions.update(sid, SessV { alive: true, txn: None }),
                        ),
                        apply_writes(old(conn)@.db, old(conn)@.sessions[sid].txn->0.writes),
                    )
                    &&& final(self)@ == (TranV { sess: sid, finished: true })
                }
            }),
    {
        if self.finished {
            return Err(Error::from_code(EINVAL));
        }
        let sess = Session { id: self.sess };
        match sess.commit_transaction(conn, config) {
            Err(e) => Err(e),
            Ok(u) => {
                self.finished = true;
                Ok(())
            },
        }
    }

    /// Prepares: an intermediate step that changes neither the handle's
    /// state machine nor which finalize is still owed.
    pub fn prepare(&mut self, conn: &mut Connection, config: &str) -> (r: Result<(), Error>)
        requires
            old(conn).wf(),
        ensures
            final(conn).wf(),
            final(self)@ == old(self)@,
            ({
                let sid = old(self)@.sess;
                if old(self)@.finished {
                    is_err_code(r, EINVAL) && final(conn)@ == old(conn)@
                } else if !sess_live(old(conn)@, sid) {
                    is_err_code(r, EINVAL) && final(conn)@ == old(conn)@
                } else if !valid_config(config.spec_bytes(), ConfigScope::FinalizeTxn) {
                    is_err_code(r, EINVAL) && final(conn)@ == old(conn)@
                } else if old(conn)@.sessions[sid].txn is None || old(
                    conn,
                )@.sessions[sid].txn->0.prepared {
                    is_err_code(r, EINVAL) && final(conn)@ == old(conn)@
                } else {
                    r matches Ok(u) && final(conn)@ == with_sessions(
                        old(conn)@,
                        old(conn)@.sessions.update(
                            sid,
                            SessV {
                                alive: true,
                                txn: Some(
                                    TxnV {
                                        snapshot: old(conn)@.sessions[sid].txn->0.snapshot,
                                        writes: old(conn)@.sessions[sid].txn->0.writes,
                                        prepared: true,
                                    },
                                ),
                            },
                        ),
                    )
                }
            }),
    {
        if self.finished {
            return Err(Error::from_code(EINVAL));
        }
        let sess = Session { id: self.sess };
        sess.prepare_transaction(conn, config)
    }

    /// Rolls back: the session-level rollback runs, and on success this
    /// handle is finished and will never issue another finalize.
    pub fn rollback(&mut self, conn: &mut Connection, config: &str) -> (r: Result<(), Error>)
        requires
            old(conn).wf(),
        ensures
            final(conn).wf(),
            ({
                let sid = old(self)@.sess;
                if old(self)@.finished {
                    is_err_code(r, EINVAL) && final(conn)@ == old(conn)@ && final(self)@ == old(
                        self,
                    )@
                } else if !sess_live(old(conn)@, sid) {
                    is_err_code(r, EINVAL) && final(conn)@ == old(conn)@ && final(self)@ == old(
                        self,
                    )@
                } else if !valid_config(config.spec_bytes(), ConfigScope::FinalizeTxn) {
                    is_err_code(r, EINVAL) && final(conn)@ == old(conn)@ && final(self)@ == old(
                        self,
                    )@
                } else if old(conn)@.sessions[sid].txn is None {
                    is_err_code(r, EINVAL) && final(conn)@ == old(conn)@ && final(self)@ == old(
                        self,
                    )@
                } else {
                    &&& r matches Ok(u)
                    &&& final(conn)@ == with_sessions(
                        old(conn)@,
                        old(conn)@.sessions.update(sid, SessV { alive: true, txn: None }),
                    )
                    &&& final(self)@ == (TranV { sess: sid, finished: true })
                }
            }),
    {
        if self.finished {
            return Err(Error::from_code(EINVAL));
        }
        let sess = Session { id: self.sess };
        match sess.rollback_transaction(conn, config) {
            Err(e) => Err(e),
            Ok(u) => {
                self.finished = true;
                Ok(())
            },
        }
    }

    /// Whether this transaction has been finalized — committed or rolled
    /// back — already.
    pub fn is_finished(&self) -> (r: bool)
        ensures
            r == self@.finished,
    {
        self.finished
    }
}

/// Changing one cursor slot — its session and at most its liveness
/// downward — preserves the connection invariant.
proof fn lemma_one_cursor_changed(pre: ConnV, post: ConnV, cid: int)
    requires
        conn_wf(pre),
        0 <= cid < pre.cursors.len(),
        post.db == pre.db,
        post.sessions == pre.sessions,
        post.cursors.len() == pre.cursors.len(),
        forall|j: int| 0 <= j < pre.cursors.len() && j != cid ==> post.cursors[j]
            == #[trigger] pre.cursors[j],
        post.cursors[cid].sess == pre.cursors[cid].sess,
        post.cursors[cid].alive ==> pre.cursors[cid].alive,
    ensures
        conn_wf(post),
{
    assert forall|i: int|
        0 <= i < post.cursors.len() implies 0 <= (#[trigger] post.cursors[i]).sess
        < post.sessions.len() && (post.cursors[i].alive
        ==> post.sessions[post.cursors[i].sess].alive) by {
        if i != cid {
            assert(post.cursors[i] == pre.cursors[i]);
        }
    }
}

/// Changing one session slot, with its liveness kept, preserves the
/// connection invariant.
pub proof fn lemma_one_session_changed(pre: ConnV, post: ConnV, sid: int)
    requires
        conn_wf(pre),
        0 <= sid < pre.sessions.len(),
        post.db == pre.db,
        post.cursors == pre.cursors,
        post.sessions.len() == pre.sessions.len(),
        forall|j: int| 0 <= j < pre.sessions.len() && j != sid ==> post.sessions[j]
            == #[trigger] pre.sessions[j],
        post.sessions[sid].alive == pre.sessions[sid].alive,
        sess_wf(post.sessions[sid]),
    ensures
        conn_wf(post),
{
    assert forall|i: int| 0 <= i < post.sessions.len() implies sess_wf(
        #[trigger] post.sessions[i],
    ) by {
        if i != sid {
            assert(post.sessions[i] == pre.sessions[i]);
        }
    }
    assert forall|i: int|
        0 <= i < post.cursors.len() implies 0 <= (#[trigger] post.cursors[i]).sess
        < post.sessions.len() && (post.cursors[i].alive
        ==> post.sessions[post.cursors[i].sess].alive) by {
        assert(post.cursors[i] == pre.cursors[i]);
        if post.cursors[i].alive {
            if post.cursors[i].sess != sid {
                assert(post.sessions[post.cursors[i].sess] == pre.sessions[post.cursors[i].sess]);
            }
        }
    }
}

} // verus!
