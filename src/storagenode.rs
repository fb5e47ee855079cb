use vstd::prelude::*;
use crate::errors::Error;
use crate::keycodec::strip_mvcc_suffix;
use crate::writeref::{WriteRef, WriteType, parse_write, opt_view};
use crate::tidbtypes::{TableInfo, StatePublic, StateDeleteOnly};

verus! {

/// Values of the database records among the `write` entries from `i` on, given the
/// user key `cur` of the record last taken: only the newest record of each user key
/// counts, locks and rollbacks and undecodable records are passed over, a delete
/// hides the database, and a put yields its inline value. `None` when a key is too
/// short to hold a timestamp.
pub open spec fn db_scan(s: Seq<(Vec<u8>, Vec<u8>)>, i: int, cur: Option<Seq<u8>>) -> Option<Seq<Seq<u8>>>
    decreases s.len() - i,
{
    if i < 0 || i >= s.len() {
        Some(Seq::empty())
    } else {
        let k = s[i].0@;
        if k.len() < 8 {
            None
        } else {
            let uk = k.subrange(0, k.len() - 8);
            if cur == Some(uk) {
                db_scan(s, i + 1, cur)
            } else {
                match parse_write(s[i].1@) {
                    None => db_scan(s, i + 1, cur),
                    Some(m) => if m.write_type == WriteType::Lock || m.write_type == WriteType::Rollback {
                        db_scan(s, i + 1, cur)
                    } else if m.write_type == WriteType::Delete {
                        db_scan(s, i + 1, Some(uk))
                    } else {
                        match (m.short_value, db_scan(s, i + 1, Some(uk))) {
                            (Some(v), Some(rest)) => Some(seq![v] + rest),
                            (None, rest) => rest,
                            (_, None) => None,
                        }
                    },
                }
            }
        }
    }
}

/// Prepends known values to a scan result.
pub open spec fn prepend_all(p: Seq<Seq<u8>>, o: Option<Seq<Seq<u8>>>) -> Option<Seq<Seq<u8>>> {
    match o {
        Some(rest) => Some(p + rest),
        None => None,
    }
}

/// Views of a list of byte vectors.
pub open spec fn byte_views(v: Seq<Vec<u8>>) -> Seq<Seq<u8>> {
    v.map_values(|f: Vec<u8>| f@)
}

/// Picks the records of live databases among the `write` entries of the database
/// list (stored key, value), in key order, and returns their inline values.
pub fn select_databases(entries: &Vec<(Vec<u8>, Vec<u8>)>) -> (r: Result<Vec<Vec<u8>>, Error>)
    ensures
        match db_scan(entries@, 0, None) {
            Some(vs) => r is Ok && byte_views(r->Ok_0@) == vs,
            None => r is Err,
        },
{
    let mut out: Vec<Vec<u8>> = Vec::new();
    let mut cur: Option<Vec<u8>> = None;
    let mut i: usize = 0;
    while i < entries.len()
        invariant
            i <= entries@.len(),
            db_scan(entries@, 0, None) == prepend_all(byte_views(out@), db_scan(entries@, i as int, opt_view(cur))),
        decreases entries@.len() - i,
    {
        let ghost before = out@;
        let uk = match strip_mvcc_suffix(entries[i].0.as_slice()) {
            Ok(k) => k,
            Err(e) => {
                return Err(Error::CorruptedData("meta key is too short".to_owned()));
            },
        };
        let same = match &cur {
            Some(c) => bytes_eq(c, &uk),
            None => false,
        };
        if !same {
            match WriteRef::parse(entries[i].1.as_slice()) {
                Err(_) => {},
                Ok(w) => {
                    match w.write_type {
                        WriteType::Lock | WriteType::Rollback => {},
                        WriteType::Delete => {
                            cur = Some(uk);
                        },
                        WriteType::Put => {
                            cur = Some(uk);
                            match w.short_value {
                                Some(v) => {
                                    out.push(v);
                                    assert(byte_views(out@) =~= byte_views(before).push(out@.last()@));
                                    proof {
                                        match db_scan(entries@, i + 1, opt_view(cur)) {
                                            Some(rest) => {
                                                assert(byte_views(before) + (seq![out@.last()@] + rest) =~= byte_views(out@) + rest);
                                            },
                                            None => {},
                                        }
                                    }
                                },
                                None => {},
                            }
                        },
                    }
                },
            }
        }
        i += 1;
    }
    Ok(out)
}

/// Whether two byte vectors hold the same bytes.
pub fn bytes_eq(a: &Vec<u8>, b: &Vec<u8>) -> (r: bool)
    ensures
        r == (a@ == b@),
{
    if a.len() != b.len() {
        return false;
    }
    let mut i: usize = 0;
    while i < a.len()
        invariant
            a@.len() == b@.len(),
            i <= a@.len(),
            forall|k: int| 0 <= k < i ==> a@[k] == b@[k],
        decreases a@.len() - i,
    {
        if a[i] != b[i] {
            return false;
        }
        i += 1;
    }
    assert(a@ =~= b@);
    true
}

/// Whether table version `i` is the one kept for its id: it is public, no other
/// public version of the id is newer or equally new and earlier in the list, and
/// every delete-only version of the id is older.
pub open spec fn kept_table(t: Seq<TableInfo>, i: int) -> bool {
    &&& t[i].state == StatePublic
    &&& forall|j: int| 0 <= j < t.len() && #[trigger] t[j].id == t[i].id && t[j].state == StatePublic ==> (
        t[j].update_timestamp < t[i].update_timestamp || (t[j].update_timestamp == t[i].update_timestamp && j >= i))
    &&& forall|j: int| 0 <= j < t.len() && #[trigger] t[j].id == t[i].id && t[j].state == StateDeleteOnly ==>
        t[j].update_timestamp < t[i].update_timestamp
}

/// Whether version `i` passes the check of version `j`.
fn keeps_against(t: &Vec<TableInfo>, i: usize, j: usize) -> (r: bool)
    requires
        i < t@.len(),
        j < t@.len(),
    ensures
        r == ((!(t@[j as int].id == t@[i as int].id && t@[j as int].state == StatePublic) || t@[j as int].update_timestamp < t@[i as int].update_timestamp
            || (t@[j as int].update_timestamp == t@[i as int].update_timestamp && j >= i)) && (!(t@[j as int].id == t@[i as int].id && t@[j as int].state
            == StateDeleteOnly) || t@[j as int].update_timestamp < t@[i as int].update_timestamp)),
{
    let a = &t[i];
    let b = &t[j];
    if b.id != a.id {
        return true;
    }
    if b.state == StatePublic {
        b.update_timestamp < a.update_timestamp || (b.update_timestamp == a.update_timestamp && j >= i)
    } else if b.state == StateDeleteOnly {
        b.update_timestamp < a.update_timestamp
    } else {
        true
    }
}

/// Picks, among the versions of table definitions of one database, the newest public
/// version of each table id, and drops a table whose newest delete-only version is
/// at least as new. Returns the positions of the kept versions, in ascending order.
pub fn select_tables(t: &Vec<TableInfo>) -> (r: Vec<usize>)
    ensures
        forall|a: int, b: int| 0 <= a < b < r@.len() ==> (#[trigger] r@[a]) < (#[trigger] r@[b]),
        forall|k: int| 0 <= k < r@.len() ==> (#[trigger] r@[k]) < t@.len() && kept_table(t@, r@[k] as int),
        forall|i: int| 0 <= i < t@.len() && #[trigger] kept_table(t@, i) ==> r@.contains(i as usize),
{
    let mut r: Vec<usize> = Vec::new();
    let mut i: usize = 0;
    while i < t.len()
        invariant
            i <= t@.len(),
            forall|a: int, b: int| 0 <= a < b < r@.len() ==> (#[trigger] r@[a]) < (#[trigger] r@[b]),
            forall|k: int| 0 <= k < r@.len() ==> (#[trigger] r@[k]) < i && kept_table(t@, r@[k] as int),
            forall|x: int| 0 <= x < i && #[trigger] kept_table(t@, x) ==> r@.contains(x as usize),
        decreases t@.len() - i,
    {
        let mut ok = t[i].state == StatePublic;
        let mut j: usize = 0;
        while ok && j < t.len()
            invariant
                i < t@.len(),
                j <= t@.len(),
                ok ==> t@[i as int].state == StatePublic,
                ok ==> forall|y: int| 0 <= y < j ==> (!(t@[y].id == t@[i as int].id && t@[y].state == StatePublic)
                    || t@[y].update_timestamp < t@[i as int].update_timestamp || (t@[y].update_timestamp
                    == t@[i as int].update_timestamp && y >= i)) && (!(t@[y].id == t@[i as int].id && t@[y].state
                    == StateDeleteOnly) || t@[y].update_timestamp < t@[i as int].update_timestamp),
                !ok ==> !kept_table(t@, i as int),
            decreases t@.len() - j,
        {
            if !keeps_against(t, i, j) {
                ok = false;
            }
            j += 1;
        }
        let ghost before = r@;
        if ok {
            r.push(i);
            assert(r@[r@.len() - 1] == i);
        }
        assert forall|x: int| 0 <= x < i + 1 && #[trigger] kept_table(t@, x) implies r@.contains(x as usize) by {
            if x < i {
                let k = choose|k: int| 0 <= k < before.len() && before[k] == x as usize;
                assert(r@[k] == x as usize);
            } else {
                assert(r@[r@.len() - 1] == i);
            }
        }
        i += 1;
    }
    r
}

} // verus!
