//! The naive-vs-remap-vs-ideal busiest-bank comparison.
use vstd::prelude::*;

use crate::pim::simulate::PimResult;

verus! {

/// One row of the naive-vs-remap-vs-ideal comparison: rows of work in the
/// busiest bank with no remap (`i % banks`), with the calibrated remap, and
/// if the load were perfectly divisible (the same for both, since it only
/// depends on which neurons were active). The speedup of the remap is
/// `naive_rows / remap_rows` and its distance from the ideal
/// `remap_rows / ideal_rows` (each 1 when the divisor is 0).
#[derive(Debug, Clone, Copy)]
pub struct BalanceReportRow {
    pub name: &'static str,
    pub naive_rows: u64,
    pub remap_rows: u64,
    pub ideal_rows: u64,
}

/// A row with the given name and counts.
pub open spec fn report_row(row: BalanceReportRow, name: &str, naive: u64, remap: u64, ideal: u64) -> bool {
    &&& row.name@ == name@
    &&& row.naive_rows == naive
    &&& row.remap_rows == remap
    &&& row.ideal_rows == ideal
}

/// Build the naive/remap/ideal comparison for UP-async and DOWN-async, and,
/// when either result was batched (`batch_group > 1`), for the batched
/// rounds too. `naive` and `remapped` must come from the same record
/// stream, simulated without and with the calibrated table.
pub fn build_balance_report(naive: &PimResult, remapped: &PimResult) -> (rows: Vec<BalanceReportRow>)
    ensures
        rows@.len() == if naive.batch_group > 1 || remapped.batch_group > 1 {
            4int
        } else {
            2int
        },
        report_row(
            rows@[0],
            "up_async",
            naive.up_total_asnc_time,
            remapped.up_total_asnc_time,
            remapped.up_total_asnc_time_bal,
        ),
        report_row(
            rows@[1],
            "down_async",
            naive.down_total_async_time,
            remapped.down_total_async_time,
            remapped.down_total_async_time_bal,
        ),
        rows@.len() == 4 ==> report_row(
            rows@[2],
            "up_batch",
            naive.up_total_batch_time,
            remapped.up_total_batch_time,
            remapped.up_total_batch_time_bal,
        ),
        rows@.len() == 4 ==> report_row(
            rows@[3],
            "down_batch",
            naive.down_total_batch_time,
            remapped.down_total_batch_time,
            remapped.down_total_batch_time_bal,
        ),
{
    let mut rows: Vec<BalanceReportRow> = Vec::new();
    rows.push(
        BalanceReportRow {
            name: "up_async",
            naive_rows: naive.up_total_asnc_time,
            remap_rows: remapped.up_total_asnc_time,
            ideal_rows: remapped.up_total_asnc_time_bal,
        },
    );
    rows.push(
        BalanceReportRow {
            name: "down_async",
            naive_rows: naive.down_total_async_time,
            remap_rows: remapped.down_total_async_time,
            ideal_rows: remapped.down_total_async_time_bal,
        },
    );
    // Only meaningful once batch_group > 1 (both results produced with the
    // same group size).
    if naive.batch_group > 1 || remapped.batch_group > 1 {
        rows.push(
            BalanceReportRow {
                name: "up_batch",
                naive_rows: naive.up_total_batch_time,
                remap_rows: remapped.up_total_batch_time,
                ideal_rows: remapped.up_total_batch_time_bal,
            },
        );
        rows.push(
            BalanceReportRow {
                name: "down_batch",
                naive_rows: naive.down_total_batch_time,
                remap_rows: remapped.down_total_batch_time,
                ideal_rows: remapped.down_total_batch_time_bal,
            },
        );
    }
    rows
}

} // verus!
