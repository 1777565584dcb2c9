//! The records kept in the database, the database location, and how the
//! answers of queries become results.

use vstd::prelude::*;
use vstd::string::*;
use crate::text::{chars_of, matches_at, string_of_range};

verus! {

/// A tracked package.
#[derive(Debug, Clone)]
pub struct Package {
    pub id: i64,
    pub tracking_number: String,
    pub label: Option<String>,
    pub status: Option<String>,
    pub status_category: Option<String>,
    pub status_summary: Option<String>,
    pub mail_class: Option<String>,
    pub expected_delivery: Option<String>,
    pub last_refreshed_at: Option<String>,
    pub created_at: String,
}

/// A stored scan of a package.
#[derive(Debug, Clone)]
pub struct TrackingEvent {
    pub id: i64,
    pub package_id: i64,
    pub event_timestamp: Option<String>,
    pub event_type: Option<String>,
    pub event_city: Option<String>,
    pub event_state: Option<String>,
    pub event_zip: Option<String>,
    pub event_code: Option<String>,
}

// ── Database location ───────────────────────────────────────────────────────

/// `s` begins with `p`.
pub open spec fn has_prefix(s: Seq<char>, p: Seq<char>) -> bool {
    p.len() <= s.len() && s.take(p.len() as int) == p
}

/// The file path for the configured database URL (`None`: not configured):
/// `parcels.db` by default, with a leading `sqlite:///` or else `sqlite://` removed.
pub open spec fn database_path_for(configured: Option<Seq<char>>) -> Seq<char> {
    let raw = match configured {
        Some(v) => v,
        None => "parcels.db"@,
    };
    if has_prefix(raw, "sqlite:///"@) {
        raw.skip("sqlite:///"@.len() as int)
    } else if has_prefix(raw, "sqlite://"@) {
        raw.skip("sqlite://"@.len() as int)
    } else {
        raw
    }
}

/// The path of the SQLite database, from the configured `DATABASE_URL`.
pub fn database_path(configured: Option<&str>) -> (path: String)
    ensures
        path@ == database_path_for(
            match configured {
                Some(v) => Some(v@),
                None => None,
            },
        ),
{
    let raw = match configured {
        Some(v) => chars_of(v),
        None => chars_of("parcels.db"),
    };
    let triple = chars_of("sqlite:///");
    let double = chars_of("sqlite://");
    proof {
        assert(raw@.subrange(0, triple@.len() as int) =~= raw@.take(triple@.len() as int));
        assert(raw@.subrange(0, double@.len() as int) =~= raw@.take(double@.len() as int));
        assert(raw@.subrange(0, raw@.len() as int) =~= raw@);
    }
    if matches_at(&raw, 0, &triple) {
        proof {
            assert(raw@.subrange(triple@.len() as int, raw@.len() as int) =~= raw@.skip(
                triple@.len() as int,
            ));
        }
        string_of_range(&raw, triple.len(), raw.len())
    } else if matches_at(&raw, 0, &double) {
        proof {
            assert(raw@.subrange(double@.len() as int, raw@.len() as int) =~= raw@.skip(
                double@.len() as int,
            ));
        }
        string_of_range(&raw, double.len(), raw.len())
    } else {
        string_of_range(&raw, 0, raw.len())
    }
}

// ── Query answers ───────────────────────────────────────────────────────────

/// Why a single-row query gave no row.
pub enum RowError<E> {
    /// The query matched no row.
    NoRows,
    /// The query failed.
    Failed(E),
}

/// A single-row lookup: a missing row is `Ok(None)`, a failure stays an error.
pub fn optional_row<T, E>(r: Result<T, RowError<E>>) -> (o: Result<Option<T>, E>)
    ensures
        match r {
            Ok(x) => o == Ok::<Option<T>, E>(Some(x)),
            Err(RowError::NoRows) => o == Ok::<Option<T>, E>(None),
            Err(RowError::Failed(e)) => o == Err::<Option<T>, E>(e),
        },
{
    match r {
        Ok(x) => Ok(Some(x)),
        Err(RowError::NoRows) => Ok(None),
        Err(RowError::Failed(e)) => Err(e),
    }
}

/// The rows of a multi-row query that could be read, in order; rows that
/// failed to read are skipped.
pub open spec fn ok_values<T, E>(rows: Seq<Result<T, E>>) -> Seq<T>
    decreases rows.len(),
{
    if rows.len() == 0 {
        Seq::empty()
    } else {
        let init = ok_values(rows.drop_last());
        match rows.last() {
            Ok(x) => init.push(x),
            Err(_) => init,
        }
    }
}

/// A row that could be read gives its value; one that failed gives nothing.
pub proof fn lemma_ok_values_single<T, E>(row: Result<T, E>)
    ensures
        match row {
            Ok(x) => ok_values(seq![row]) == seq![x],
            Err(_) => ok_values(seq![row]) == Seq::<T>::empty(),
        },
{
    assert(seq![row].drop_last() =~= Seq::<Result<T, E>>::empty());
    assert(seq![row].last() == row);
    assert(ok_values(Seq::<Result<T, E>>::empty()) =~= Seq::<T>::empty());
    match row {
        Ok(x) => {
            assert(Seq::<T>::empty().push(x) =~= seq![x]);
        },
        Err(_) => {},
    }
}

/// The readable rows of two runs of rows are those of the first run followed
/// by those of the second: no row is dropped or reordered.
pub proof fn lemma_ok_values_concat<T, E>(a: Seq<Result<T, E>>, b: Seq<Result<T, E>>)
    ensures
        ok_values(a + b) == ok_values(a) + ok_values(b),
    decreases b.len(),
{
    if b.len() == 0 {
        assert(a + b =~= a);
        assert(ok_values(a) + ok_values(b) =~= ok_values(a));
    } else {
        assert((a + b).drop_last() =~= a + b.drop_last());
        assert((a + b).last() == b.last());
        lemma_ok_values_concat(a, b.drop_last());
        match b.last() {
            Ok(x) => {
                assert(ok_values(a) + ok_values(b.drop_last()).push(x) =~= (ok_values(a)
                    + ok_values(b.drop_last())).push(x));
            },
            Err(_) => {},
        }
    }
}

/// When every row could be read, all of them are kept, each in its place.
pub proof fn lemma_ok_values_all_ok<T, E>(rows: Seq<Result<T, E>>)
    requires
        forall|i: int| 0 <= i < rows.len() ==> #[trigger] rows[i] is Ok,
    ensures
        ok_values(rows).len() == rows.len(),
        forall|i: int| 0 <= i < rows.len() ==> Ok::<T, E>(#[trigger] ok_values(rows)[i]) == rows[i],
    decreases rows.len(),
{
    if rows.len() > 0 {
        let init = rows.drop_last();
        assert forall|i: int| 0 <= i < init.len() implies #[trigger] init[i] is Ok by {
            assert(init[i] == rows[i]);
        }
        lemma_ok_values_all_ok(init);
        assert(rows[rows.len() - 1] is Ok);
        assert forall|i: int| 0 <= i < rows.len() implies Ok::<T, E>(
            #[trigger] ok_values(rows)[i],
        ) == rows[i] by {
            if i < init.len() {
                assert(init[i] == rows[i]);
                assert(Ok::<T, E>(ok_values(init)[i]) == init[i]);
            }
        }
    }
}

/// When no row could be read, nothing is kept.
pub proof fn lemma_ok_values_all_failed<T, E>(rows: Seq<Result<T, E>>)
    requires
        forall|i: int| 0 <= i < rows.len() ==> #[trigger] rows[i] is Err,
    ensures
        ok_values(rows) == Seq::<T>::empty(),
    decreases rows.len(),
{
    if rows.len() > 0 {
        let init = rows.drop_last();
        assert forall|i: int| 0 <= i < init.len() implies #[trigger] init[i] is Err by {
            assert(init[i] == rows[i]);
        }
        lemma_ok_values_all_failed(init);
        assert(rows[rows.len() - 1] is Err);
    }
}

/// Keeps the rows that could be read, in order.
pub fn collect_ok_rows<T, E>(rows: Vec<Result<T, E>>) -> (v: Vec<T>)
    ensures
        v@ == ok_values(rows@),
{
    let ghost all = rows@;
    let mut v: Vec<T> = Vec::new();
    for r in it: rows.into_iter()
        invariant
            it.seq() == all,
            v@ == ok_values(all.take(it.index() as int)),
    {
        proof {
            assert(all.take(it.index() + 1).drop_last() =~= all.take(it.index() as int));
        }
        match r {
            Ok(x) => v.push(x),
            Err(_) => {},
        }
    }
    proof {
        assert(all.take(all.len() as int) =~= all);
    }
    v
}

} // verus!
