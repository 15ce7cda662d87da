//! The flat configuration-string grammar and the option builders.
//!
//! The engine takes every option set as one string of comma-separated
//! `key=value` items. A key alone stands for a boolean switched on; a value
//! is a word, a number, a size with a binary suffix, or a group bracketed by
//! `(...)` or `[...]` whose commas do not split items. Each operation admits
//! its own keys, and a number is held to the documented range of its key, so
//! a statically detectable mistake is rejected here rather than surfacing as
//! an opaque invalid-argument code from the engine.

use vstd::prelude::*;
use vstd::string::StringSliceAdditionalSpecFns;
use crate::order::byte_eq;

verus! {

/// Which operation a configuration string is for: each admits its own keys.
#[derive(Debug, Clone, Copy, PartialEq, Eq, Structural)]
pub enum ConfigScope {
    /// Opening a database environment.
    Open,
    /// Closing a database environment.
    CloseConn,
    /// Reconfiguring an open connection.
    ConnReconfigure,
    /// Reconfiguring a session.
    SessionReconfigure,
    /// Reconfiguring a cursor.
    CursorReconfigure,
    /// Creating a table.
    Create,
    /// Dropping a table.
    DropTable,
    /// Compacting a table.
    Compact,
    /// Opening or duplicating a cursor.
    OpenCursor,
    /// Beginning a transaction.
    BeginTxn,
    /// Committing, preparing or rolling back a transaction.
    FinalizeTxn,
    /// Setting or clearing a cursor range bound.
    Bound,
}

/// What value a key takes: a boolean flag, a bounded number, a bounded byte
/// size with an optional binary suffix, free text, or a bracketed group.
#[derive(Debug, Clone, Copy, PartialEq, Eq, Structural)]
pub enum ValKind {
    Flag,
    Num { lo: u64, hi: u64 },
    Size { lo: u64, hi: u64 },
    Text,
    Group,
}

/// A byte a key may hold: lower-case letters, digits and underscore.
pub open spec fn key_byte(b: u8) -> bool {
    (97 <= b <= 122) || (48 <= b <= 57) || b == 95
}

/// A byte a plain value may hold: key bytes, upper-case letters, and the
/// punctuation that words, paths and times use.
pub open spec fn val_byte(b: u8) -> bool {
    key_byte(b) || (65 <= b <= 90) || b == 46 || b == 45 || b == 58 || b == 47 || b == 37
}

/// The smaller of two integers.
pub open spec fn min_int(a: int, b: int) -> int {
    if a < b { a } else { b }
}

/// The larger of two integers.
pub open spec fn max_int(a: int, b: int) -> int {
    if a < b { b } else { a }
}

/// The position of the first comma at bracket depth zero at or after `i`,
/// or the length when no such comma follows.
pub open spec fn item_end(s: Seq<u8>, i: int, depth: int) -> int
    decreases s.len() - i,
{
    if i < 0 || i >= s.len() {
        s.len() as int
    } else if s[i] == 44 && depth == 0 {
        i
    } else if s[i] == 40 || s[i] == 91 {
        item_end(s, i + 1, depth + 1)
    } else if s[i] == 41 || s[i] == 93 {
        item_end(s, i + 1, depth - 1)
    } else {
        item_end(s, i + 1, depth)
    }
}

/// `item_end` never looks backward and never passes the end.
pub proof fn lemma_item_end_bounds(s: Seq<u8>, i: int, depth: int)
    requires
        0 <= i <= s.len(),
    ensures
        i <= item_end(s, i, depth) <= s.len(),
    decreases s.len() - i,
{
    if i < s.len() && !(s[i] == 44 && depth == 0) {
        if s[i] == 40 || s[i] == 91 {
            lemma_item_end_bounds(s, i + 1, depth + 1);
        } else if s[i] == 41 || s[i] == 93 {
            lemma_item_end_bounds(s, i + 1, depth - 1);
        } else {
            lemma_item_end_bounds(s, i + 1, depth);
        }
    }
}

/// The items of a configuration string from position `i` on: the stretches
/// between commas at bracket depth zero.
pub open spec fn items_from(s: Seq<u8>, i: int) -> Seq<Seq<u8>>
    decreases s.len() - i,
{
    if i < 0 || i >= s.len() {
        Seq::empty()
    } else {
        let e = max_int(i, min_int(item_end(s, i, 0), s.len() as int));
        if e == s.len() {
            seq![s.subrange(i, e)]
        } else {
            seq![s.subrange(i, e)] + items_from(s, e + 1)
        }
    }
}

/// The items of a whole configuration string.
pub open spec fn config_items(s: Seq<u8>) -> Seq<Seq<u8>> {
    items_from(s, 0)
}

/// The position of the first `=` in an item, or its length.
pub open spec fn eq_from(item: Seq<u8>, j: int) -> int
    decreases item.len() - j,
{
    if j < 0 || j >= item.len() {
        item.len() as int
    } else if item[j] == 61 {
        j
    } else {
        eq_from(item, j + 1)
    }
}

/// `eq_from` never looks backward and never passes the end.
pub proof fn lemma_eq_from_bounds(item: Seq<u8>, j: int)
    requires
        0 <= j <= item.len(),
    ensures
        j <= eq_from(item, j) <= item.len(),
    decreases item.len() - j,
{
    if j < item.len() && item[j] != 61 {
        lemma_eq_from_bounds(item, j + 1);
    }
}

/// An item's key: the bytes before its first `=`.
pub open spec fn item_key(item: Seq<u8>) -> Seq<u8> {
    item.subrange(0, min_int(eq_from(item, 0), item.len() as int))
}

/// Whether an item carries an explicit value.
pub open spec fn item_has_val(item: Seq<u8>) -> bool {
    eq_from(item, 0) < item.len()
}

/// An item's value: the bytes after its first `=`.
pub open spec fn item_val(item: Seq<u8>) -> Seq<u8> {
    if item_has_val(item) {
        item.subrange(eq_from(item, 0) + 1, item.len() as int)
    } else {
        Seq::empty()
    }
}

/// All bytes of `s` are digits.
pub open spec fn all_digits(s: Seq<u8>) -> bool {
    forall|i: int| 0 <= i < s.len() ==> 48 <= #[trigger] s[i] <= 57
}

/// The number the decimal digits of `s` denote.
pub open spec fn dec_val(s: Seq<u8>) -> int
    decreases s.len(),
{
    if s.len() == 0 {
        0
    } else {
        dec_val(s.take(s.len() as int - 1)) * 10 + (s[s.len() as int - 1] - 48)
    }
}

/// A well-formed number: one to eighteen decimal digits.
pub open spec fn num_form(s: Seq<u8>) -> bool {
    1 <= s.len() <= 18 && all_digits(s)
}

/// The multiplier a size suffix stands for; zero marks a byte that is no
/// size suffix.
pub open spec fn suffix_mult(b: u8) -> int {
    if b == 75 { 0x400 }  // K
    else if b == 77 { 0x100000 }  // M
    else if b == 71 { 0x40000000 }  // G
    else if b == 84 { 0x10000000000 }  // T
    else if b == 80 { 0x4000000000000 }  // P
    else { 0 }
}

/// A size value with any trailing `B` stripped: `100MB` and `100M` name
/// the same count.
pub open spec fn size_body(s: Seq<u8>) -> Seq<u8> {
    if s.len() >= 1 && s[s.len() as int - 1] == 66 {
        s.take(s.len() as int - 1)
    } else {
        s
    }
}

/// A well-formed size: a number followed by at most one binary suffix,
/// with an optional trailing `B`.
pub open spec fn size_form(s: Seq<u8>) -> bool {
    let b = size_body(s);
    num_form(b) || (b.len() >= 2 && suffix_mult(b[b.len() as int - 1]) > 0 && num_form(
        b.take(b.len() as int - 1),
    ))
}

/// The byte count a well-formed size denotes.
pub open spec fn size_val(s: Seq<u8>) -> int {
    let b = size_body(s);
    if b.len() >= 1 && suffix_mult(b[b.len() as int - 1]) > 0 {
        dec_val(b.take(b.len() as int - 1)) * suffix_mult(b[b.len() as int - 1])
    } else {
        dec_val(b)
    }
}

/// A balanced bracket run: every `(` or `[` is closed, every `)` or `]`
/// closes one, and only value bytes, commas and `=` stand between them.
pub open spec fn group_run(v: Seq<u8>, j: int, depth: int) -> bool
    decreases v.len() - j,
{
    if j < 0 || j >= v.len() {
        depth == 0
    } else if v[j] == 40 || v[j] == 91 {
        group_run(v, j + 1, depth + 1)
    } else if v[j] == 41 || v[j] == 93 {
        depth > 0 && group_run(v, j + 1, depth - 1)
    } else {
        (val_byte(v[j]) || v[j] == 44 || v[j] == 61) && group_run(v, j + 1, depth)
    }
}

/// A group value: bracketed and balanced.
pub open spec fn group_form(v: Seq<u8>) -> bool {
    v.len() >= 2 && (v[0] == 40 || v[0] == 91) && group_run(v, 0, 0)
}

/// All bytes of `s` are plain value bytes.
pub open spec fn all_val_bytes(s: Seq<u8>) -> bool {
    forall|i: int| 0 <= i < s.len() ==> val_byte(#[trigger] s[i])
}

/// All bytes of `s` are key bytes.
pub open spec fn all_key_bytes(s: Seq<u8>) -> bool {
    forall|i: int| 0 <= i < s.len() ==> key_byte(#[trigger] s[i])
}

/// The value kind a key takes under a scope, or `None` for a key the
/// operation does not admit.
pub open spec fn key_kind(scope: ConfigScope, k: Seq<u8>) -> Option<ValKind> {
    match scope {
        ConfigScope::Open => {
            if k == "create".spec_bytes() { Some(ValKind::Flag) }
            else if k == "exclusive".spec_bytes() { Some(ValKind::Flag) }
            else if k == "checkpoint_sync".spec_bytes() { Some(ValKind::Flag) }
            else if k == "config_base".spec_bytes() { Some(ValKind::Flag) }
            else if k == "use_environment_priv".spec_bytes() { Some(ValKind::Flag) }
            else if k == "cache_size".spec_bytes() {
                Some(ValKind::Size { lo: 0x100000, hi: 0xa0000000000 })
            }
            else if k == "cache_overhead".spec_bytes() { Some(ValKind::Num { lo: 0, hi: 30 }) }
            else if k == "eviction_target".spec_bytes() { Some(ValKind::Num { lo: 10, hi: 99 }) }
            else if k == "eviction_dirty_target".spec_bytes() {
                Some(ValKind::Num { lo: 10, hi: 99 })
            }
            else if k == "eviction_trigger".spec_bytes() { Some(ValKind::Num { lo: 10, hi: 99 }) }
            else if k == "hazard_max".spec_bytes() {
                Some(ValKind::Num { lo: 15, hi: 0xffffffffffffffff })
            }
            else if k == "session_max".spec_bytes() {
                Some(ValKind::Num { lo: 1, hi: 0xffffffffffffffff })
            }
            else if k == "error_prefix".spec_bytes() { Some(ValKind::Text) }
            else if k == "eviction".spec_bytes() { Some(ValKind::Group) }
            else if k == "checkpoint".spec_bytes() { Some(ValKind::Group) }
            else if k == "log".spec_bytes() { Some(ValKind::Group) }
            else if k == "statistics".spec_bytes() { Some(ValKind::Group) }
            else if k == "transaction_sync".spec_bytes() { Some(ValKind::Group) }
            else { None }
        },
        ConfigScope::CloseConn => {
            if k == "leak_memory".spec_bytes() { Some(ValKind::Flag) }
            else if k == "use_timestamp".spec_bytes() { Some(ValKind::Flag) }
            else { None }
        },
        ConfigScope::ConnReconfigure => {
            if k == "cache_size".spec_bytes() {
                Some(ValKind::Size { lo: 0x100000, hi: 0xa0000000000 })
            }
            else if k == "cache_overhead".spec_bytes() { Some(ValKind::Num { lo: 0, hi: 30 }) }
            else if k == "cache_max_wait_ms".spec_bytes() {
                Some(ValKind::Num { lo: 0, hi: 0xffffffffffffffff })
            }
            else if k == "eviction_target".spec_bytes() { Some(ValKind::Num { lo: 10, hi: 99 }) }
            else if k == "eviction_dirty_target".spec_bytes() {
                Some(ValKind::Num { lo: 10, hi: 99 })
            }
            else if k == "eviction_trigger".spec_bytes() { Some(ValKind::Num { lo: 10, hi: 99 }) }
            else if k == "error_prefix".spec_bytes() { Some(ValKind::Text) }
            else if k == "eviction".spec_bytes() { Some(ValKind::Group) }
            else if k == "checkpoint".spec_bytes() { Some(ValKind::Group) }
            else if k == "statistics".spec_bytes() { Some(ValKind::Group) }
            else { None }
        },
        ConfigScope::SessionReconfigure => {
            if k == "isolation".spec_bytes() { Some(ValKind::Text) }
            else if k == "cache_max_wait_ms".spec_bytes() {
                Some(ValKind::Num { lo: 0, hi: 0xffffffffffffffff })
            }
            else { None }
        },
        ConfigScope::CursorReconfigure => {
            if k == "append".spec_bytes() { Some(ValKind::Flag) }
            else if k == "overwrite".spec_bytes() { Some(ValKind::Flag) }
            else { None }
        },
        ConfigScope::Create => {
            if k == "key_format".spec_bytes() { Some(ValKind::Text) }
            else if k == "value_format".spec_bytes() { Some(ValKind::Text) }
            else if k == "exclusive".spec_bytes() { Some(ValKind::Flag) }
            else if k == "allocation_size".spec_bytes() {
                Some(ValKind::Size { lo: 512, hi: 0x8000000 })
            }
            else if k == "block_allocation".spec_bytes() { Some(ValKind::Text) }
            else if k == "app_metadata".spec_bytes() { Some(ValKind::Text) }
            else if k == "columns".spec_bytes() { Some(ValKind::Group) }
            else { None }
        },
        ConfigScope::DropTable => {
            if k == "force".spec_bytes() { Some(ValKind::Flag) }
            else if k == "remove_files".spec_bytes() { Some(ValKind::Flag) }
            else { None }
        },
        ConfigScope::Compact => {
            if k == "timeout".spec_bytes() {
                Some(ValKind::Num { lo: 0, hi: 0xffffffffffffffff })
            }
            else { None }
        },
        ConfigScope::OpenCursor => {
            if k == "append".spec_bytes() { Some(ValKind::Flag) }
            else if k == "overwrite".spec_bytes() { Some(ValKind::Flag) }
            else if k == "raw".spec_bytes() { Some(ValKind::Flag) }
            else if k == "readonly".spec_bytes() { Some(ValKind::Flag) }
            else if k == "bulk".spec_bytes() { Some(ValKind::Flag) }
            else { None }
        },
        ConfigScope::BeginTxn => {
            if k == "isolation".spec_bytes() { Some(ValKind::Text) }
            else if k == "name".spec_bytes() { Some(ValKind::Text) }
            else if k == "sync".spec_bytes() { Some(ValKind::Flag) }
            else { None }
        },
        ConfigScope::FinalizeTxn => {
            if k == "sync".spec_bytes() { Some(ValKind::Text) }
            else if k == "operation_timeout_ms".spec_bytes() {
                Some(ValKind::Num { lo: 0, hi: 0xffffffffffffffff })
            }
            else { None }
        },
        ConfigScope::Bound => {
            if k == "action".spec_bytes() { Some(ValKind::Text) }
            else if k == "bound".spec_bytes() { Some(ValKind::Text) }
            else { None }
        },
    }
}

/// A value fits its kind and, for a number or size, its documented range.
pub open spec fn val_fits(kind: ValKind, v: Seq<u8>) -> bool {
    match kind {
        ValKind::Flag => v == "true".spec_bytes() || v == "false".spec_bytes(),
        ValKind::Num { lo, hi } => num_form(v) && lo <= dec_val(v) <= hi,
        ValKind::Size { lo, hi } => size_form(v) && lo <= size_val(v) <= hi,
        ValKind::Text => all_val_bytes(v),
        ValKind::Group => group_form(v),
    }
}

/// One item is well formed under a scope: a known key, and a fitting value
/// or — for a flag — no value at all.
pub open spec fn valid_item(scope: ConfigScope, item: Seq<u8>) -> bool {
    let k = item_key(item);
    &&& k.len() > 0
    &&& all_key_bytes(k)
    &&& match key_kind(scope, k) {
        None => false,
        Some(kind) => {
            if item_has_val(item) {
                val_fits(kind, item_val(item))
            } else {
                kind is Flag
            }
        },
    }
}

/// A whole configuration string is well formed under a scope.
pub open spec fn valid_config(s: Seq<u8>, scope: ConfigScope) -> bool {
    forall|i: int|
        0 <= i < config_items(s).len() ==> valid_item(scope, #[trigger] config_items(s)[i])
}

/// The first item bearing key `k`, if any.
pub open spec fn first_item(items: Seq<Seq<u8>>, k: Seq<u8>) -> Option<Seq<u8>>
    decreases items.len(),
{
    if items.len() == 0 {
        None
    } else if item_key(items[0]) == k {
        Some(items[0])
    } else {
        first_item(items.skip(1), k)
    }
}

/// Whether a configuration string switches the boolean key `k` on: the key
/// stands alone, or carries the value `true`.
pub open spec fn config_flag(s: Seq<u8>, k: Seq<u8>) -> bool {
    match first_item(config_items(s), k) {
        None => false,
        Some(item) => !item_has_val(item) || item_val(item) == "true".spec_bytes(),
    }
}

/// The number a configuration string gives for key `k`, or `d` when the key
/// is absent or carries no number.
pub open spec fn config_num_or(s: Seq<u8>, k: Seq<u8>, d: int) -> int {
    match first_item(config_items(s), k) {
        None => d,
        Some(item) => {
            if item_has_val(item) && num_form(item_val(item)) {
                dec_val(item_val(item))
            } else {
                d
            }
        },
    }
}

/// Whether a configuration string switches key `k` on, taking `d` when the
/// key is absent.
pub open spec fn config_flag_or(s: Seq<u8>, k: Seq<u8>, d: bool) -> bool {
    match first_item(config_items(s), k) {
        None => d,
        Some(item) => !item_has_val(item) || item_val(item) == "true".spec_bytes(),
    }
}

/// The text a configuration string gives for key `k`: the value of the
/// first item bearing the key, or nothing when the key is absent or bare.
pub open spec fn config_text(s: Seq<u8>, k: Seq<u8>) -> Option<Seq<u8>> {
    match first_item(config_items(s), k) {
        None => None,
        Some(item) => {
            if item_has_val(item) {
                Some(item_val(item))
            } else {
                None
            }
        },
    }
}

/// A stretch of a byte string copied into an owned buffer.
fn copy_range(s: &[u8], a: usize, b: usize) -> (out: Vec<u8>)
    requires
        a <= b <= s@.len(),
    ensures
        out@ == s@.subrange(a as int, b as int),
{
    let mut out: Vec<u8> = Vec::new();
    let mut i: usize = a;
    while i < b
        invariant
            a <= i <= b <= s@.len(),
            out@ =~= s@.subrange(a as int, i as int),
        decreases b - i,
    {
        out.push(s[i]);
        i = i + 1;
        assert(out@ =~= s@.subrange(a as int, i as int));
    }
    assert(out@ =~= s@.subrange(a as int, b as int));
    out
}

/// The end of the item starting at `i`: the first comma at bracket depth
/// zero, or the end of the string.
fn find_item_end(s: &[u8], i: usize) -> (e: usize)
    requires
        i <= s@.len(),
    ensures
        i <= e <= s@.len(),
        e as int == max_int(i as int, min_int(item_end(s@, i as int, 0), s@.len() as int)),
{
    proof {
        lemma_item_end_bounds(s@, i as int, 0);
    }
    let n = s.len();
    let mut j: usize = i;
    let mut depth: i128 = 0;
    loop
        invariant
            i <= j <= n,
            n == s@.len(),
            -(j as i128) <= depth <= j as i128,
            item_end(s@, i as int, 0) == item_end(s@, j as int, depth as int),
        decreases n - j,
    {
        if j == n {
            return j;
        }
        let b = s[j];
        if b == 44 && depth == 0 {
            return j;
        }
        if b == 40 || b == 91 {
            depth = depth + 1;
        } else if b == 41 || b == 93 {
            depth = depth - 1;
        }
        j = j + 1;
    }
}

/// The items of a configuration string, each copied out.
fn split_items(s: &[u8]) -> (out: Vec<Vec<u8>>)
    ensures
        out@.map_values(|v: Vec<u8>| v@) == config_items(s@),
{
    let mut out: Vec<Vec<u8>> = Vec::new();
    let mut i: usize = 0;
    while i < s.len()
        invariant
            i <= s@.len(),
            out@.map_values(|v: Vec<u8>| v@) + items_from(s@, i as int) =~~= config_items(s@),
        decreases s@.len() - i,
    {
        let e = find_item_end(s, i);
        let item = copy_range(s, i, e);
        let ghost iv = item@;
        let ghost mprev = out@.map_values(|v: Vec<u8>| v@);
        out.push(item);
        proof {
            assert(out@.map_values(|v: Vec<u8>| v@) =~~= mprev.push(iv));
        }
        if e == s.len() {
            proof {
                assert(items_from(s@, i as int) =~~= seq![iv]);
                assert(out@.map_values(|v: Vec<u8>| v@) =~~= config_items(s@));
            }
            return out;
        }
        proof {
            assert(items_from(s@, i as int) =~~= seq![iv] + items_from(s@, e + 1));
            assert(mprev.push(iv) + items_from(s@, e + 1) =~~= config_items(s@));
        }
        i = e + 1;
    }
    proof {
        assert(items_from(s@, i as int) =~~= Seq::<Seq<u8>>::empty());
        assert(out@.map_values(|v: Vec<u8>| v@) =~~= config_items(s@));
    }
    out
}

/// The position of the first `=` in an item, or its length.
fn find_eq(item: &[u8]) -> (e: usize)
    ensures
        e <= item@.len(),
        e as int == min_int(eq_from(item@, 0), item@.len() as int),
{
    proof {
        lemma_eq_from_bounds(item@, 0);
    }
    let n = item.len();
    let mut j: usize = 0;
    while j < n
        invariant
            j <= n,
            n == item@.len(),
            eq_from(item@, 0) == eq_from(item@, j as int),
        decreases n - j,
    {
        if item[j] == 61 {
            return j;
        }
        j = j + 1;
    }
    n
}

/// Ten to the power `n`.
pub open spec fn pow10(n: int) -> int
    decreases n,
{
    if n <= 0 {
        1
    } else {
        pow10(n - 1) * 10
    }
}

/// Powers of ten grow with the exponent.
proof fn lemma_pow10_mono(a: int, b: int)
    requires
        0 <= a <= b,
    ensures
        1 <= pow10(a) <= pow10(b),
    decreases b,
{
    if a < b {
        lemma_pow10_mono(a, b - 1);
    } else if a == b && a > 0 {
        lemma_pow10_mono(a - 1, a - 1);
    }
}

/// Parses a decimal number of at most eighteen digits.
fn parse_num(v: &[u8]) -> (r: Option<u64>)
    ensures
        match r {
            Some(n) => num_form(v@) && n as int == dec_val(v@),
            None => !num_form(v@),
        },
{
    let n = v.len();
    if n == 0 || n > 18 {
        return None;
    }
    let mut acc: u64 = 0;
    let mut i: usize = 0;
    while i < n
        invariant
            i <= n,
            n == v@.len(),
            1 <= n <= 18,
            forall|j: int| 0 <= j < i ==> 48 <= #[trigger] v@[j] <= 57,
            acc as int == dec_val(v@.take(i as int)),
            (acc as int) < pow10(i as int),
        decreases n - i,
    {
        let b = v[i];
        if b < 48 || b > 57 {
            return None;
        }
        proof {
            lemma_pow10_mono(i as int, 17);
            reveal_with_fuel(pow10, 19);
            assert(pow10(17) == 100000000000000000);
            assert(acc < 100000000000000000);
        }
        let d = (b - 48) as u64;
        acc = acc * 10 + d;
        i = i + 1;
        proof {
            assert(v@.take(i as int).take(i as int - 1) =~= v@.take(i as int - 1));
            assert(v@.take(i as int)[i as int - 1] == v@[i as int - 1]);
            assert(acc as int == dec_val(v@.take(i as int)));
        }
    }
    proof {
        assert(v@.take(n as int) =~= v@);
    }
    Some(acc)
}

/// Checks a size value — a number with an optional binary suffix and an
/// optional trailing `B` — against an inclusive range.
fn check_size(full: &[u8], lo: u64, hi: u64) -> (r: bool)
    ensures
        r == (size_form(full@) && lo as int <= size_val(full@) && size_val(full@) <= hi as int),
{
    if full.len() == 0 {
        return false;
    }
    let n = if full[full.len() - 1] == 66 {
        full.len() - 1
    } else {
        full.len()
    };
    proof {
        assert(size_body(full@) =~= full@.subrange(0, n as int));
    }
    let body = copy_range(full, 0, n);
    let v = body.as_slice();
    if n == 0 {
        return false;
    }
    let last = v[n - 1];
    let mult: u64 = if last == 75 { 0x400 }
    else if last == 77 { 0x100000 }
    else if last == 71 { 0x40000000 }
    else if last == 84 { 0x10000000000 }
    else if last == 80 { 0x4000000000000 }
    else { 0 };
    proof {
        assert(mult as int == suffix_mult(v@[n as int - 1]));
    }
    if mult > 0 {
        if n < 2 {
            return false;
        }
        let digits = copy_range(v, 0, n - 1);
        match parse_num(digits.as_slice()) {
            None => false,
            Some(m) => {
                proof {
                    vstd::arithmetic::mul::lemma_mul_upper_bound(
                        m as int,
                        0xffffffffffffffff,
                        mult as int,
                        0x4000000000000,
                    );
                }
                let total: u128 = (m as u128) * (mult as u128);
                proof {
                    assert(v@.take(n as int - 1) =~= digits@);
                }
                total >= lo as u128 && total <= hi as u128
            },
        }
    } else {
        match parse_num(v) {
            None => false,
            Some(m) => m >= lo && m <= hi,
        }
    }
}

/// Checks a bracketed group value: balanced brackets over permitted bytes.
fn check_group(v: &[u8]) -> (r: bool)
    ensures
        r == group_form(v@),
{
    let n = v.len();
    if n < 2 {
        return false;
    }
    if !(v[0] == 40 || v[0] == 91) {
        return false;
    }
    let mut j: usize = 0;
    let mut depth: u64 = 0;
    loop
        invariant
            j <= n,
            n == v@.len(),
            depth <= j as u64,
            group_form(v@) == group_run(v@, j as int, depth as int),
        decreases n - j,
    {
        if j == n {
            return depth == 0;
        }
        let b = v[j];
        if b == 40 || b == 91 {
            depth = depth + 1;
        } else if b == 41 || b == 93 {
            if depth == 0 {
                return false;
            }
            depth = depth - 1;
        } else if !(key_byte_exec(b) || (65 <= b && b <= 90) || b == 46 || b == 45 || b == 58
            || b == 47 || b == 37 || b == 44 || b == 61) {
            return false;
        }
        j = j + 1;
    }
}

/// Whether a byte may stand in a key.
fn key_byte_exec(b: u8) -> (r: bool)
    ensures
        r == key_byte(b),
{
    (97 <= b && b <= 122) || (48 <= b && b <= 57) || b == 95
}

/// Whether a byte may stand in a plain value.
fn val_byte_exec(b: u8) -> (r: bool)
    ensures
        r == val_byte(b),
{
    key_byte_exec(b) || (65 <= b && b <= 90) || b == 46 || b == 45 || b == 58 || b == 47
        || b == 37
}

/// Whether every byte of `s` may stand in a plain value.
fn all_val_bytes_exec(s: &[u8]) -> (r: bool)
    ensures
        r == all_val_bytes(s@),
{
    let n = s.len();
    let mut i: usize = 0;
    while i < n
        invariant
            i <= n,
            n == s@.len(),
            forall|j: int| 0 <= j < i ==> val_byte(#[trigger] s@[j]),
        decreases n - i,
    {
        if !val_byte_exec(s[i]) {
            return false;
        }
        i = i + 1;
    }
    true
}

/// Whether every byte of `s` may stand in a key.
pub(crate) fn all_key_bytes_exec(s: &[u8]) -> (r: bool)
    ensures
        r == all_key_bytes(s@),
{
    let n = s.len();
    let mut i: usize = 0;
    while i < n
        invariant
            i <= n,
            n == s@.len(),
            forall|j: int| 0 <= j < i ==> key_byte(#[trigger] s@[j]),
        decreases n - i,
    {
        if !key_byte_exec(s[i]) {
            return false;
        }
        i = i + 1;
    }
    true
}

/// The value kind a key takes under a scope.
fn key_kind_of(scope: ConfigScope, k: &[u8]) -> (r: Option<ValKind>)
    ensures
        r == key_kind(scope, k@),
{
    match scope {
        ConfigScope::Open => {
            if byte_eq(k, "create".as_bytes()) { Some(ValKind::Flag) }
            else if byte_eq(k, "exclusive".as_bytes()) { Some(ValKind::Flag) }
            else if byte_eq(k, "checkpoint_sync".as_bytes()) { Some(ValKind::Flag) }
            else if byte_eq(k, "config_base".as_bytes()) { Some(ValKind::Flag) }
            else if byte_eq(k, "use_environment_priv".as_bytes()) { Some(ValKind::Flag) }
            else if byte_eq(k, "cache_size".as_bytes()) {
                Some(ValKind::Size { lo: 0x100000, hi: 0xa0000000000 })
            }
            else if byte_eq(k, "cache_overhead".as_bytes()) { Some(ValKind::Num { lo: 0, hi: 30 }) }
            else if byte_eq(k, "eviction_target".as_bytes()) {
                Some(ValKind::Num { lo: 10, hi: 99 })
            }
            else if byte_eq(k, "eviction_dirty_target".as_bytes()) {
                Some(ValKind::Num { lo: 10, hi: 99 })
            }
            else if byte_eq(k, "eviction_trigger".as_bytes()) {
                Some(ValKind::Num { lo: 10, hi: 99 })
            }
            else if byte_eq(k, "hazard_max".as_bytes()) {
                Some(ValKind::Num { lo: 15, hi: 0xffffffffffffffff })
            }
            else if byte_eq(k, "session_max".as_bytes()) {
                Some(ValKind::Num { lo: 1, hi: 0xffffffffffffffff })
            }
            else if byte_eq(k, "error_prefix".as_bytes()) { Some(ValKind::Text) }
            else if byte_eq(k, "eviction".as_bytes()) { Some(ValKind::Group) }
            else if byte_eq(k, "checkpoint".as_bytes()) { Some(ValKind::Group) }
            else if byte_eq(k, "log".as_bytes()) { Some(ValKind::Group) }
            else if byte_eq(k, "statistics".as_bytes()) { Some(ValKind::Group) }
            else if byte_eq(k, "transaction_sync".as_bytes()) { Some(ValKind::Group) }
            else { None }
        },
        ConfigScope::CloseConn => {
            if byte_eq(k, "leak_memory".as_bytes()) { Some(ValKind::Flag) }
            else if byte_eq(k, "use_timestamp".as_bytes()) { Some(ValKind::Flag) }
            else { None }
        },
        ConfigScope::ConnReconfigure => {
            if byte_eq(k, "cache_size".as_bytes()) {
                Some(ValKind::Size { lo: 0x100000, hi: 0xa0000000000 })
            }
            else if byte_eq(k, "cache_overhead".as_bytes()) { Some(ValKind::Num { lo: 0, hi: 30 }) }
            else if byte_eq(k, "cache_max_wait_ms".as_bytes()) {
                Some(ValKind::Num { lo: 0, hi: 0xffffffffffffffff })
            }
            else if byte_eq(k, "eviction_target".as_bytes()) {
                Some(ValKind::Num { lo: 10, hi: 99 })
            }
            else if byte_eq(k, "eviction_dirty_target".as_bytes()) {
                Some(ValKind::Num { lo: 10, hi: 99 })
            }
            else if byte_eq(k, "eviction_trigger".as_bytes()) {
                Some(ValKind::Num { lo: 10, hi: 99 })
            }
            else if byte_eq(k, "error_prefix".as_bytes()) { Some(ValKind::Text) }
            else if byte_eq(k, "eviction".as_bytes()) { Some(ValKind::Group) }
            else if byte_eq(k, "checkpoint".as_bytes()) { Some(ValKind::Group) }
            else if byte_eq(k, "statistics".as_bytes()) { Some(ValKind::Group) }
            else { None }
        },
        ConfigScope::SessionReconfigure => {
            if byte_eq(k, "isolation".as_bytes()) { Some(ValKind::Text) }
            else if byte_eq(k, "cache_max_wait_ms".as_bytes()) {
                Some(ValKind::Num { lo: 0, hi: 0xffffffffffffffff })
            }
            else { None }
        },
        ConfigScope::CursorReconfigure => {
            if byte_eq(k, "append".as_bytes()) { Some(ValKind::Flag) }
            else if byte_eq(k, "overwrite".as_bytes()) { Some(ValKind::Flag) }
            else { None }
        },
        ConfigScope::Create => {
            if byte_eq(k, "key_format".as_bytes()) { Some(ValKind::Text) }
            else if byte_eq(k, "value_format".as_bytes()) { Some(ValKind::Text) }
            else if byte_eq(k, "exclusive".as_bytes()) { Some(ValKind::Flag) }
            else if byte_eq(k, "allocation_size".as_bytes()) {
                Some(ValKind::Size { lo: 512, hi: 0x8000000 })
            }
            else if byte_eq(k, "block_allocation".as_bytes()) { Some(ValKind::Text) }
            else if byte_eq(k, "app_metadata".as_bytes()) { Some(ValKind::Text) }
            else if byte_eq(k, "columns".as_bytes()) { Some(ValKind::Group) }
            else { None }
        },
        ConfigScope::DropTable => {
            if byte_eq(k, "force".as_bytes()) { Some(ValKind::Flag) }
            else if byte_eq(k, "remove_files".as_bytes()) { Some(ValKind::Flag) }
            else { None }
        },
        ConfigScope::Compact => {
            if byte_eq(k, "timeout".as_bytes()) {
                Some(ValKind::Num { lo: 0, hi: 0xffffffffffffffff })
            }
            else { None }
        },
        ConfigScope::OpenCursor => {
            if byte_eq(k, "append".as_bytes()) { Some(ValKind::Flag) }
            else if byte_eq(k, "overwrite".as_bytes()) { Some(ValKind::Flag) }
            else if byte_eq(k, "raw".as_bytes()) { Some(ValKind::Flag) }
            else if byte_eq(k, "readonly".as_bytes()) { Some(ValKind::Flag) }
            else if byte_eq(k, "bulk".as_bytes()) { Some(ValKind::Flag) }
            else { None }
        },
        ConfigScope::BeginTxn => {
            if byte_eq(k, "isolation".as_bytes()) { Some(ValKind::Text) }
            else if byte_eq(k, "name".as_bytes()) { Some(ValKind::Text) }
            else if byte_eq(k, "sync".as_bytes()) { Some(ValKind::Flag) }
            else { None }
        },
        ConfigScope::FinalizeTxn => {
            if byte_eq(k, "sync".as_bytes()) { Some(ValKind::Text) }
            else if byte_eq(k, "operation_timeout_ms".as_bytes()) {
                Some(ValKind::Num { lo: 0, hi: 0xffffffffffffffff })
            }
            else { None }
        },
        ConfigScope::Bound => {
            if byte_eq(k, "action".as_bytes()) { Some(ValKind::Text) }
            else if byte_eq(k, "bound".as_bytes()) { Some(ValKind::Text) }
            else { None }
        },
    }
}

/// Whether a value fits a kind and its range.
fn val_fits_exec(kind: ValKind, v: &[u8]) -> (r: bool)
    ensures
        r == val_fits(kind, v@),
{
    match kind {
        ValKind::Flag => byte_eq(v, "true".as_bytes()) || byte_eq(v, "false".as_bytes()),
        ValKind::Num { lo, hi } => {
            match parse_num(v) {
                None => false,
                Some(n) => lo <= n && n <= hi,
            }
        },
        ValKind::Size { lo, hi } => check_size(v, lo, hi),
        ValKind::Text => all_val_bytes_exec(v),
        ValKind::Group => check_group(v),
    }
}

/// Whether one item is well formed under a scope.
fn valid_item_exec(scope: ConfigScope, item: &[u8]) -> (r: bool)
    ensures
        r == valid_item(scope, item@),
{
    let e = find_eq(item);
    let key = copy_range(item, 0, e);
    proof {
        assert(key@ == item_key(item@));
    }
    if key.len() == 0 {
        return false;
    }
    if !all_key_bytes_exec(key.as_slice()) {
        return false;
    }
    match key_kind_of(scope, key.as_slice()) {
        None => false,
        Some(kind) => {
            if e == item.len() {
                proof {
                    assert(!item_has_val(item@));
                }
                matches!(kind, ValKind::Flag)
            } else {
                let val = copy_range(item, e + 1, item.len());
                proof {
                    assert(item_has_val(item@));
                    assert(val@ == item_val(item@));
                }
                val_fits_exec(kind, val.as_slice())
            }
        },
    }
}

/// Whether a whole configuration string is well formed under a scope, as
/// `valid_config` states it.
pub fn validate_config(config: &str, scope: ConfigScope) -> (r: bool)
    ensures
        r == valid_config(config.spec_bytes(), scope),
{
    let bytes = config.as_bytes();
    let items = split_items(bytes);
    let ghost iv = config_items(bytes@);
    let n = items.len();
    let mut i: usize = 0;
    while i < n
        invariant
            i <= n,
            n == iv.len(),
            items@.map_values(|v: Vec<u8>| v@) == iv,
            iv == config_items(config.spec_bytes()),
            forall|j: int| 0 <= j < i ==> valid_item(scope, #[trigger] iv[j]),
        decreases n - i,
    {
        let ok = valid_item_exec(scope, items[i].as_slice());
        proof {
            assert(items@.map_values(|v: Vec<u8>| v@)[i as int] == items@[i as int]@);
        }
        if !ok {
            proof {
                assert(!valid_item(scope, iv[i as int]));
            }
            return false;
        }
        i = i + 1;
    }
    true
}

/// The first item of `items` whose key is `k`, if any, by index.
fn find_key(items: &Vec<Vec<u8>>, k: &[u8]) -> (r: Option<usize>)
    ensures
        match r {
            Some(i) => i < items@.len() && first_item(
                items@.map_values(|v: Vec<u8>| v@),
                k@,
            ) == Some(items@[i as int]@),
            None => first_item(items@.map_values(|v: Vec<u8>| v@), k@) is None,
        },
{
    let ghost iv = items@.map_values(|v: Vec<u8>| v@);
    proof {
        assert(iv.skip(0) =~~= iv);
    }
    let n = items.len();
    let mut i: usize = 0;
    while i < n
        invariant
            i <= n,
            n == iv.len(),
            iv == items@.map_values(|v: Vec<u8>| v@),
            first_item(iv, k@) == first_item(iv.skip(i as int), k@),
        decreases n - i,
    {
        let e = find_eq(items[i].as_slice());
        let key = copy_range(items[i].as_slice(), 0, e);
        proof {
            assert(iv[i as int] == items@[i as int]@);
            assert(key@ == item_key(iv[i as int]));
            assert(iv.skip(i as int)[0] == iv[i as int]);
        }
        if byte_eq(key.as_slice(), k) {
            proof {
                assert(first_item(iv.skip(i as int), k@) == Some(iv[i as int]));
            }
            return Some(i);
        }
        proof {
            assert(iv.skip(i as int).skip(1) =~~= iv.skip(i as int + 1));
        }
        i = i + 1;
    }
    proof {
        assert(iv.skip(i as int) =~~= Seq::<Seq<u8>>::empty());
    }
    None
}

/// Whether a configuration string switches the boolean key `k` on, taking
/// `d` when the key is absent, as `config_flag_or` states it.
pub fn read_flag_or(config: &str, k: &[u8], d: bool) -> (r: bool)
    ensures
        r == config_flag_or(config.spec_bytes(), k@, d),
{
    let bytes = config.as_bytes();
    let items = split_items(bytes);
    match find_key(&items, k) {
        None => d,
        Some(i) => {
            let item = items[i].as_slice();
            let e = find_eq(item);
            if e == item.len() {
                proof {
                    assert(!item_has_val(items@[i as int]@));
                }
                true
            } else {
                let val = copy_range(item, e + 1, item.len());
                proof {
                    assert(val@ == item_val(items@[i as int]@));
                }
                byte_eq(val.as_slice(), "true".as_bytes())
            }
        },
    }
}

/// The number a configuration string gives for key `k`, or `d` when the
/// key is absent or carries no number, as `config_num_or` states it.
pub fn read_num_or(config: &str, k: &[u8], d: u64) -> (r: u64)
    ensures
        r as int == config_num_or(config.spec_bytes(), k@, d as int),
{
    let bytes = config.as_bytes();
    let items = split_items(bytes);
    match find_key(&items, k) {
        None => d,
        Some(i) => {
            let item = items[i].as_slice();
            let e = find_eq(item);
            if e == item.len() {
                proof {
                    assert(!item_has_val(items@[i as int]@));
                }
                d
            } else {
                let val = copy_range(item, e + 1, item.len());
                proof {
                    assert(val@ == item_val(items@[i as int]@));
                }
                match parse_num(val.as_slice()) {
                    None => d,
                    Some(n) => n,
                }
            }
        },
    }
}

/// The value a configuration string gives for key `k`, copied out, as
/// `config_text` states it.
pub fn read_text(config: &str, k: &[u8]) -> (r: Option<Vec<u8>>)
    ensures
        match r {
            Some(v) => config_text(config.spec_bytes(), k@) == Some(v@),
            None => config_text(config.spec_bytes(), k@) is None,
        },
{
    let bytes = config.as_bytes();
    let items = split_items(bytes);
    match find_key(&items, k) {
        None => None,
        Some(i) => {
            let item = items[i].as_slice();
            let e = find_eq(item);
            if e == item.len() {
                proof {
                    assert(!item_has_val(items@[i as int]@));
                }
                None
            } else {
                let val = copy_range(item, e + 1, item.len());
                proof {
                    assert(val@ == item_val(items@[i as int]@));
                }
                Some(val)
            }
        },
    }
}

/// The text of a boolean option value.
pub open spec fn bool_chars(b: bool) -> Seq<char> {
    if b {
        "true"@
    } else {
        "false"@
    }
}

/// The option set for opening a database environment, serialized by
/// [`OpenConnectionConfig::to_string`] into the flat string grammar.
///
/// Each numeric field carries the engine's documented range, which
/// [`OpenConnectionConfig::validate`] holds it to; the eviction thread
/// counts serialize as one nested group.
pub struct OpenConnectionConfig {
    /// Create the database if it does not exist. Default false.
    pub create: bool,
    /// Fail if the database already exists. Default false.
    pub exclusive: bool,
    /// Maximum cache memory in bytes, between 1MB and 10TB. Default 100MB.
    pub cache_size: u64,
    /// Assumed allocator overhead as a percentage, between 0 and 30. Default 8.
    pub cache_overhead: u8,
    /// Evict until the cache holds less than this percentage, between 10
    /// and 99 and below the trigger. Default 80.
    pub eviction_target: u8,
    /// Evict until dirty memory is below this percentage, between 10 and
    /// 99. Default 80.
    pub eviction_dirty_target: u8,
    /// Start evicting at this percentage of cache use, between 10 and 99.
    /// Default 95.
    pub eviction_trigger: u8,
    /// Fewest eviction worker threads, between 1 and 20. Default 1.
    pub eviction_threads_min: u8,
    /// Most eviction worker threads, between 1 and 20. Default 1.
    pub eviction_threads_max: u8,
}

/// The exact serialization of an open-connection option set.
pub open spec fn open_config_chars(c: OpenConnectionConfig) -> Seq<char> {
    "create="@ + bool_chars(c.create) + ",exclusive="@ + bool_chars(c.exclusive) + ",cache_size="@
        + crate::errors::dec_nat(c.cache_size as int) + ",cache_overhead="@ + crate::errors::dec_nat(
        c.cache_overhead as int,
    ) + ",eviction_target="@ + crate::errors::dec_nat(c.eviction_target as int)
        + ",eviction_dirty_target="@ + crate::errors::dec_nat(c.eviction_dirty_target as int)
        + ",eviction_trigger="@ + crate::errors::dec_nat(c.eviction_trigger as int)
        + ",eviction=(threads_max="@ + crate::errors::dec_nat(c.eviction_threads_max as int)
        + ",threads_min="@ + crate::errors::dec_nat(c.eviction_threads_min as int) + ")"@
}

/// Every field within its documented range, and the eviction target below
/// the trigger.
pub open spec fn open_config_ok(c: OpenConnectionConfig) -> bool {
    &&& 0x100000 <= c.cache_size <= 0xa0000000000
    &&& c.cache_overhead <= 30
    &&& 10 <= c.eviction_target <= 99
    &&& 10 <= c.eviction_dirty_target <= 99
    &&& 10 <= c.eviction_trigger <= 99
    &&& c.eviction_target < c.eviction_trigger
    &&& 1 <= c.eviction_threads_min <= 20
    &&& 1 <= c.eviction_threads_max <= 20
    &&& c.eviction_threads_min <= c.eviction_threads_max
}

impl OpenConnectionConfig {
    /// The documented defaults: no creation, 100MB of cache, an 8 percent
    /// overhead allowance, eviction at 80/80/95, one eviction thread.
    pub fn new() -> (c: OpenConnectionConfig)
        ensures
            !c.create,
            !c.exclusive,
            c.cache_size == 0x6400000,
            c.cache_overhead == 8,
            c.eviction_target == 80,
            c.eviction_dirty_target == 80,
            c.eviction_trigger == 95,
            c.eviction_threads_min == 1,
            c.eviction_threads_max == 1,
            open_config_ok(c),
    {
        OpenConnectionConfig {
            create: false,
            exclusive: false,
            cache_size: 0x6400000,
            cache_overhead: 8,
            eviction_target: 80,
            eviction_dirty_target: 80,
            eviction_trigger: 95,
            eviction_threads_min: 1,
            eviction_threads_max: 1,
        }
    }

    /// Rejects a statically detectable mistake — a field outside its
    /// documented range — before any string reaches the engine.
    pub fn validate(&self) -> (r: Result<(), Error>)
        ensures
            r is Ok <==> open_config_ok(*self),
            r is Err ==> r->Err_0.code == crate::errors::EINVAL && r->Err_0.message@
                == crate::errors::error_message_spec(crate::errors::EINVAL),
    {
        if self.cache_size < 0x100000 || self.cache_size > 0xa0000000000 || self.cache_overhead
            > 30 || self.eviction_target < 10 || self.eviction_target > 99
            || self.eviction_dirty_target < 10 || self.eviction_dirty_target > 99
            || self.eviction_trigger < 10 || self.eviction_trigger > 99 || self.eviction_target
            >= self.eviction_trigger || self.eviction_threads_min < 1 || self.eviction_threads_min
            > 20 || self.eviction_threads_max < 1 || self.eviction_threads_max > 20
            || self.eviction_threads_min > self.eviction_threads_max {
            Err(Error::from_code(crate::errors::EINVAL))
        } else {
            Ok(())
        }
    }

    /// Serializes the option set into the flat `key=value` grammar, the
    /// eviction thread counts as a nested group.
    pub fn to_string(&self) -> (r: String)
        ensures
            r@ == open_config_chars(*self),
    {
        let mut out = "create=".to_owned();
        out.append(bool_str(self.create));
        out.append(",exclusive=");
        out.append(bool_str(self.exclusive));
        out.append(",cache_size=");
        crate::errors::push_dec_u64(self.cache_size, &mut out);
        out.append(",cache_overhead=");
        crate::errors::push_dec_u64(self.cache_overhead as u64, &mut out);
        out.append(",eviction_target=");
        crate::errors::push_dec_u64(self.eviction_target as u64, &mut out);
        out.append(",eviction_dirty_target=");
        crate::errors::push_dec_u64(self.eviction_dirty_target as u64, &mut out);
        out.append(",eviction_trigger=");
        crate::errors::push_dec_u64(self.eviction_trigger as u64, &mut out);
        out.append(",eviction=(threads_max=");
        crate::errors::push_dec_u64(self.eviction_threads_max as u64, &mut out);
        out.append(",threads_min=");
        crate::errors::push_dec_u64(self.eviction_threads_min as u64, &mut out);
        out.append(")");
        proof {
            assert(out@ =~= open_config_chars(*self));
        }
        out
    }
}

/// The text of a boolean option value.
fn bool_str(b: bool) -> (r: &'static str)
    ensures
        r@ == bool_chars(b),
{
    if b {
        "true"
    } else {
        "false"
    }
}

use crate::errors::Error;

} // verus!
