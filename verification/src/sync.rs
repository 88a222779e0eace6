//! Sync decisions: which directory entries the engine cares about and when
//! a file must be parsed again. The engine's host lists the directory,
//! reads modification times and file bytes, and hands them in as plain
//! values; everything decided here is verified.

use vstd::prelude::*;
use crate::num::is_digit;
use crate::store::{spec_recorded, EntryView, TableStore};
use crate::table::TableView;
use crate::text::str_to_chars;

verus! {

/// One admissible shape of a data file's name: `k` digits (three to five),
/// then optionally a dash and one more digit, then a dot and the extension.
pub open spec fn shape_matches(name: Seq<char>, ext: Seq<char>, k: int, dash: bool) -> bool {
    &&& 3 <= k <= 5
    &&& forall|x: int| 0 <= x < k ==> is_digit(#[trigger] name[x])
    &&& if dash {
        &&& name.len() == k + 3 + ext.len()
        &&& name[k] == '-'
        &&& is_digit(name[k + 1])
        &&& name[k + 2] == '.'
        &&& name.subrange(k + 3, name.len() as int) == ext
    } else {
        &&& name.len() == k + 1 + ext.len()
        &&& name[k] == '.'
        &&& name.subrange(k + 1, name.len() as int) == ext
    }
}

/// Whether a file name follows the data-file convention for an extension.
pub open spec fn name_matches(name: Seq<char>, ext: Seq<char>) -> bool {
    exists|k: int, dash: bool| shape_matches(name, ext, k, dash)
}

/// Any admissible shape starts exactly where the leading digits end.
proof fn lemma_shape_at_digit_end(name: Seq<char>, ext: Seq<char>, k: int, dash: bool, d: int)
    requires
        shape_matches(name, ext, k, dash),
        0 <= d <= name.len(),
        forall|x: int| 0 <= x < d ==> is_digit(#[trigger] name[x]),
        d == name.len() || !is_digit(name[d]),
    ensures
        k == d,
{
    if k < d {
        assert(is_digit(name[k]));
        assert(name[k] == '-' || name[k] == '.');
    } else if d < k {
        assert(is_digit(name[d]));
    }
}

/// Whether a file name follows the convention `ddd[dd][-d].<ext>`: a three-
/// to five-digit identifier, an optional one-digit disambiguator, a dot and
/// the extension.
pub fn file_name_matches(name: &str, ext: &str) -> (r: bool)
    ensures
        r == name_matches(name@, ext@),
{
    let nc = str_to_chars(name);
    let ec = str_to_chars(ext);
    let n = nc.len();
    let mut d: usize = 0;
    while d < n && crate::num::is_digit_char(nc[d])
        invariant
            0 <= d <= n,
            n == nc@.len(),
            nc@ == name@,
            forall|x: int| 0 <= x < d ==> is_digit(#[trigger] nc@[x]),
        decreases n - d,
    {
        d = d + 1;
    }
    if d < 3 || d > 5 {
        proof {
            assert forall|k: int, dash: bool| !shape_matches(name@, ext@, k, dash) by {
                if shape_matches(name@, ext@, k, dash) {
                    lemma_shape_at_digit_end(name@, ext@, k, dash, d as int);
                }
            }
        }
        return false;
    }
    if d < n && nc[d] == '.' {
        let ok = n - (d + 1) == ec.len() && crate::text::chars_eq(
            crate::text::subvec(nc.as_slice(), d + 1, n).as_slice(),
            ec.as_slice(),
        );
        proof {
            if ok {
                assert(name@.subrange(d + 1, n as int) == ext@);
                assert(shape_matches(name@, ext@, d as int, false));
            } else {
                assert forall|k: int, dash: bool| !shape_matches(name@, ext@, k, dash) by {
                    if shape_matches(name@, ext@, k, dash) {
                        lemma_shape_at_digit_end(name@, ext@, k, dash, d as int);
                        assert(!dash) by {
                            if dash {
                                assert(name@[k] == '-');
                            }
                        }
                        assert(name@.subrange(d + 1, n as int) == ext@);
                    }
                }
            }
        }
        ok
    } else if d + 2 < n && nc[d] == '-' && crate::num::is_digit_char(nc[d + 1]) && nc[d + 2]
        == '.' {
        let ok = n - (d + 3) == ec.len() && crate::text::chars_eq(
            crate::text::subvec(nc.as_slice(), d + 3, n).as_slice(),
            ec.as_slice(),
        );
        proof {
            if ok {
                assert(name@.subrange(d + 3, n as int) == ext@);
                assert(shape_matches(name@, ext@, d as int, true));
            } else {
                assert forall|k: int, dash: bool| !shape_matches(name@, ext@, k, dash) by {
                    if shape_matches(name@, ext@, k, dash) {
                        lemma_shape_at_digit_end(name@, ext@, k, dash, d as int);
                        assert(dash) by {
                            if !dash {
                                assert(name@[k] == '.');
                            }
                        }
                        assert(name@.subrange(d + 3, n as int) == ext@);
                    }
                }
            }
        }
        ok
    } else {
        proof {
            assert forall|k: int, dash: bool| !shape_matches(name@, ext@, k, dash) by {
                if shape_matches(name@, ext@, k, dash) {
                    lemma_shape_at_digit_end(name@, ext@, k, dash, d as int);
                    if dash {
                        assert(name@[d as int] == '-' && is_digit(name@[d + 1]) && name@[d + 2]
                            == '.');
                        assert(d + 2 < n);
                    } else {
                        assert(name@[d as int] == '.');
                        assert(d < n);
                    }
                }
            }
        }
        false
    }
}

/// What the engine does with one directory entry.
#[derive(Clone, Copy, Debug, PartialEq, Eq, Structural)]
pub enum SyncAction {
    /// The name does not follow the convention: not a data file.
    Ignore,
    /// The file is no newer than the cached entry: keep it.
    Keep,
    /// The file is new or its modification time advanced: parse it again
    /// and install the result.
    Refresh,
}

/// The engine's decision for one directory entry, given what the store
/// holds: ignore a foreign name, keep an entry whose file has not advanced,
/// refresh the rest.
pub open spec fn plan_spec(
    entries: Map<Seq<char>, EntryView>,
    name: Seq<char>,
    ext: Seq<char>,
    modified: u64,
) -> SyncAction {
    if !name_matches(name, ext) {
        SyncAction::Ignore
    } else if modified > spec_recorded(entries, name) {
        SyncAction::Refresh
    } else {
        SyncAction::Keep
    }
}

impl TableStore {
    /// Decides what to do with one directory entry.
    pub fn plan_entry(&self, name: &str, ext: &str, modified: u64) -> (r: SyncAction)
        ensures
            r == plan_spec(self.entries(), name@, ext@, modified),
    {
        if !file_name_matches(name, ext) {
            SyncAction::Ignore
        } else if self.needs_refresh(name, modified) {
            SyncAction::Refresh
        } else {
            SyncAction::Keep
        }
    }
}

/// A second scan with no file change performs no re-parse: once a matching
/// file's table is installed at its modification time, planning the same
/// entry again keeps the cache, so two consecutive scans over unchanged
/// files parse nothing the second time.
pub proof fn lemma_rescan_unchanged_keeps(
    entries: Map<Seq<char>, EntryView>,
    name: Seq<char>,
    ext: Seq<char>,
    table: TableView,
    modified: u64,
)
    requires
        name_matches(name, ext),
    ensures
        plan_spec(
            entries.insert(name, EntryView { table, modified }),
            name,
            ext,
            modified,
        ) == SyncAction::Keep,
{
    let e2 = entries.insert(name, EntryView { table, modified });
    assert(spec_recorded(e2, name) == modified);
}

/// A file whose modification time advanced is re-parsed, and installing its
/// fresh table leaves every other name's entry untouched.
pub proof fn lemma_refresh_touches_one_entry(
    entries: Map<Seq<char>, EntryView>,
    name: Seq<char>,
    ext: Seq<char>,
    table: TableView,
    modified: u64,
)
    requires
        name_matches(name, ext),
        modified > spec_recorded(entries, name),
    ensures
        plan_spec(entries, name, ext, modified) == SyncAction::Refresh,
        ({
            let e2 = entries.insert(name, EntryView { table, modified });
            &&& e2[name] == (EntryView { table, modified })
            &&& forall|other: Seq<char>|
                other != name && entries.contains_key(other) ==> e2.contains_key(other)
                    && e2[other] == entries[other]
            &&& forall|other: Seq<char>|
                other != name && !entries.contains_key(other) ==> !(#[trigger] e2.contains_key(
                    other,
                ))
        }),
{
}

/// One scan over a directory listing — each entry a file name with its
/// modification time — threading the store's contents: a refreshed entry is
/// parsed (to the table the ghost map gives for its name) and installed.
/// Yields the contents after the scan and how many parses it performed.
pub open spec fn scan(
    entries: Map<Seq<char>, EntryView>,
    listing: Seq<(Seq<char>, u64)>,
    ext: Seq<char>,
    tables: Map<Seq<char>, TableView>,
    i: int,
) -> (Map<Seq<char>, EntryView>, nat)
    decreases listing.len() - i,
{
    if i < 0 || i >= listing.len() {
        (entries, 0)
    } else {
        let name = listing[i].0;
        let m = listing[i].1;
        if plan_spec(entries, name, ext, m) == SyncAction::Refresh {
            let rest = scan(
                entries.insert(name, EntryView { table: tables[name], modified: m }),
                listing,
                ext,
                tables,
                i + 1,
            );
            (rest.0, rest.1 + 1)
        } else {
            scan(entries, listing, ext, tables, i + 1)
        }
    }
}

/// A scan never touches a name that its listing does not carry.
proof fn lemma_scan_untouched(
    entries: Map<Seq<char>, EntryView>,
    listing: Seq<(Seq<char>, u64)>,
    ext: Seq<char>,
    tables: Map<Seq<char>, TableView>,
    i: int,
    name: Seq<char>,
)
    requires
        0 <= i <= listing.len(),
        forall|j: int| i <= j < listing.len() ==> (#[trigger] listing[j]).0 != name,
    ensures
        spec_recorded(scan(entries, listing, ext, tables, i).0, name) == spec_recorded(
            entries,
            name,
        ),
    decreases listing.len() - i,
{
    if i < listing.len() {
        let here = listing[i].0;
        let m = listing[i].1;
        if plan_spec(entries, here, ext, m) == SyncAction::Refresh {
            let e2 = entries.insert(here, EntryView { table: tables[here], modified: m });
            assert(spec_recorded(e2, name) == spec_recorded(entries, name));
            lemma_scan_untouched(e2, listing, ext, tables, i + 1, name);
        } else {
            lemma_scan_untouched(entries, listing, ext, tables, i + 1, name);
        }
    }
}

/// After a scan over distinct names, every matching file's recorded time
/// has caught up with the listing.
proof fn lemma_scan_covers(
    entries: Map<Seq<char>, EntryView>,
    listing: Seq<(Seq<char>, u64)>,
    ext: Seq<char>,
    tables: Map<Seq<char>, TableView>,
    i: int,
    j: int,
)
    requires
        0 <= i <= j < listing.len(),
        forall|a: int, b: int|
            i <= a < b < listing.len() ==> (#[trigger] listing[a]).0 != (#[trigger] listing[b]).0,
        name_matches(listing[j].0, ext),
    ensures
        spec_recorded(scan(entries, listing, ext, tables, i).0, listing[j].0) >= listing[j].1,
    decreases j - i,
{
    let here = listing[i].0;
    let m = listing[i].1;
    if plan_spec(entries, here, ext, m) == SyncAction::Refresh {
        let e2 = entries.insert(here, EntryView { table: tables[here], modified: m });
        if i == j {
            assert(spec_recorded(e2, here) == m);
            lemma_scan_untouched(e2, listing, ext, tables, i + 1, here);
        } else {
            lemma_scan_covers(e2, listing, ext, tables, i + 1, j);
        }
    } else {
        if i == j {
            // matching but not refreshed: the recorded time was already there
            assert(plan_spec(entries, here, ext, m) == SyncAction::Keep);
            assert(spec_recorded(entries, here) >= m);
            lemma_scan_untouched(entries, listing, ext, tables, i + 1, here);
        } else {
            lemma_scan_covers(entries, listing, ext, tables, i + 1, j);
        }
    }
}

/// A scan whose listing is nowhere newer than the store parses nothing.
proof fn lemma_scan_no_refresh(
    entries: Map<Seq<char>, EntryView>,
    listing: Seq<(Seq<char>, u64)>,
    ext: Seq<char>,
    tables: Map<Seq<char>, TableView>,
    i: int,
)
    requires
        0 <= i <= listing.len(),
        forall|j: int|
            i <= j < listing.len() ==> (name_matches((#[trigger] listing[j]).0, ext)
                ==> spec_recorded(entries, listing[j].0) >= listing[j].1),
    ensures
        scan(entries, listing, ext, tables, i).1 == 0,
    decreases listing.len() - i,
{
    if i < listing.len() {
        let here = listing[i].0;
        let m = listing[i].1;
        assert(plan_spec(entries, here, ext, m) != SyncAction::Refresh);
        lemma_scan_no_refresh(entries, listing, ext, tables, i + 1);
    }
}

/// Scanning an unchanged directory twice parses every due file in the
/// first pass and none in the second: whatever the store held before, the
/// second scan over the same listing performs zero re-parses.
pub proof fn lemma_second_scan_parses_nothing(
    entries: Map<Seq<char>, EntryView>,
    listing: Seq<(Seq<char>, u64)>,
    ext: Seq<char>,
    tables: Map<Seq<char>, TableView>,
)
    requires
        forall|a: int, b: int|
            0 <= a < b < listing.len() ==> (#[trigger] listing[a]).0 != (#[trigger] listing[b]).0,
    ensures
        scan(scan(entries, listing, ext, tables, 0).0, listing, ext, tables, 0).1 == 0,
{
    let after = scan(entries, listing, ext, tables, 0).0;
    assert forall|j: int|
        0 <= j < listing.len() && name_matches((#[trigger] listing[j]).0, ext) implies spec_recorded(
        after,
        listing[j].0,
    ) >= listing[j].1 by {
        lemma_scan_covers(entries, listing, ext, tables, 0, j);
    }
    lemma_scan_no_refresh(after, listing, ext, tables, 0);
}

} // verus!
