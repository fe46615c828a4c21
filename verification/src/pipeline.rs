//! The record pipeline: decode one line, filter on the average, and
//! fold a whole run of lines, halting on the first failing line.
use crate::json::parse_record;
use crate::json::spec_parse_record;
use crate::json::BillingRecord;
use crate::Error;
use vstd::prelude::*;

verus! {

/// The inclusive filter bound: an average of thirty, in `1e-9` units.
pub const RATE_THRESHOLD: i128 = 30_000_000_000;

/// Whether a decoded record is emitted: its average exists and is at
/// most thirty, inclusive. `sum / (count * RATE_UNIT) <= 30` is compared
/// exactly, by cross-multiplication.
pub open spec fn spec_should_emit(avg: Option<(int, int)>) -> bool {
    match avg {
        None => false,
        Some((sum, count)) => sum <= RATE_THRESHOLD * count,
    }
}

/// Decide whether a record passes the filter: true exactly when its
/// average exists and is at most thirty.
pub fn should_emit(r: &BillingRecord) -> (res: bool)
    ensures
        res == spec_should_emit(r@.2),
{
    match &r.avg {
        None => false,
        Some(a) => {
            proof {
                vstd::arithmetic::mul::lemma_mul_inequality(
                    a.count as int,
                    u64::MAX as int,
                    RATE_THRESHOLD as int,
                );
            }
            let rhs: i128 = RATE_THRESHOLD * (a.count as i128);
            a.sum <= rhs
        },
    }
}

/// One line of the pipeline: decoded, then filtered. `Ok(Some(..))` is
/// an emitted record, `Ok(None)` a silently dropped one, `Err(..)` a
/// failed line.
pub open spec fn spec_process_line(s: Seq<u8>) -> Result<
    Option<(Seq<u8>, Seq<u8>, Option<(int, int)>)>,
    Error,
> {
    match spec_parse_record(s) {
        Err(e) => Err(e),
        Ok(m) => if spec_should_emit(m.2) {
            Ok(Some(m))
        } else {
            Ok(None)
        },
    }
}

/// Decode one line and filter it: the record comes back only when it is
/// to be emitted; a record without observations, or above the bound, is
/// dropped without error.
pub fn process_line(line: &Vec<u8>) -> (res: Result<Option<BillingRecord>, Error>)
    ensures
        match res {
            Ok(Some(r)) => spec_process_line(line@) == Ok::<
                Option<(Seq<u8>, Seq<u8>, Option<(int, int)>)>,
                Error,
            >(Some(r@)),
            Ok(None) => spec_process_line(line@) == Ok::<
                Option<(Seq<u8>, Seq<u8>, Option<(int, int)>)>,
                Error,
            >(None),
            Err(e) => spec_process_line(line@) == Err::<
                Option<(Seq<u8>, Seq<u8>, Option<(int, int)>)>,
                Error,
            >(e),
        },
{
    match parse_record(line) {
        Err(e) => Err(e),
        Ok(r) => if should_emit(&r) {
            Ok(Some(r))
        } else {
            Ok(None)
        },
    }
}

/// The views of a sequence of byte vectors.
pub open spec fn views_of(lines: Seq<Vec<u8>>) -> Seq<Seq<u8>> {
    lines.map_values(|l: Vec<u8>| l@)
}

/// The rows a run of lines emits, assuming every line decodes.
pub open spec fn spec_rows(lines: Seq<Seq<u8>>) -> Seq<(Seq<u8>, Seq<u8>, Option<(int, int)>)>
    decreases lines.len(),
{
    if lines.len() == 0 {
        Seq::empty()
    } else {
        let rest = spec_rows(lines.drop_first());
        match spec_process_line(lines.first()) {
            Ok(Some(m)) => seq![m] + rest,
            _ => rest,
        }
    }
}

/// Run the pipeline over a batch of lines, in order: on success, exactly
/// the surviving records, in input order; otherwise the 1-based number
/// and error of the first failing line, every line before it having
/// decoded, and nothing emitted.
pub fn run_pipeline(lines: &Vec<Vec<u8>>) -> (res: Result<Vec<BillingRecord>, (usize, Error)>)
    ensures
        match res {
            Ok(rows) => (forall|k: int|
                0 <= k < lines@.len() ==> #[trigger] spec_process_line(lines@[k]@) is Ok)
                && rows@.map_values(|r: BillingRecord| r@) == spec_rows(views_of(lines@)),
            Err((ln, e)) => 1 <= ln <= lines@.len() && spec_process_line(lines@[ln - 1]@) == Err::<
                Option<(Seq<u8>, Seq<u8>, Option<(int, int)>)>,
                Error,
            >(e) && (forall|k: int|
                0 <= k < ln - 1 ==> #[trigger] spec_process_line(lines@[k]@) is Ok),
        },
{
    let ghost all = views_of(lines@);
    let mut rows: Vec<BillingRecord> = Vec::new();
    let mut idx: usize = 0;
    proof {
        assert(all.skip(0) =~= all);
        assert(rows@.map_values(|r: BillingRecord| r@) + spec_rows(all) =~= spec_rows(all));
    }
    while idx < lines.len()
        invariant
            idx <= lines@.len(),
            all == views_of(lines@),
            forall|k: int| 0 <= k < idx ==> #[trigger] spec_process_line(lines@[k]@) is Ok,
            rows@.map_values(|r: BillingRecord| r@) + spec_rows(all.skip(idx as int)) == spec_rows(
                all,
            ),
        decreases lines@.len() - idx,
    {
        proof {
            assert(all.skip(idx as int).first() == lines@[idx as int]@);
            assert(all.skip(idx as int).drop_first() =~= all.skip(idx as int + 1));
        }
        match process_line(&lines[idx]) {
            Err(e) => {
                return Err((idx + 1, e));
            },
            Ok(Some(r)) => {
                let ghost old_rows = rows@;
                rows.push(r);
                proof {
                    assert(rows@.map_values(|r2: BillingRecord| r2@) =~= old_rows.map_values(
                        |r2: BillingRecord| r2@,
                    ).push(r@));
                    assert(rows@.map_values(|r2: BillingRecord| r2@) + spec_rows(
                        all.skip(idx as int + 1),
                    ) =~= old_rows.map_values(|r2: BillingRecord| r2@) + spec_rows(
                        all.skip(idx as int),
                    ));
                }
            },
            Ok(None) => {
            },
        }
        idx = idx + 1;
    }
    proof {
        assert(all.skip(lines@.len() as int) =~= Seq::<Seq<u8>>::empty());
    }
    Ok(rows)
}

} // verus!
