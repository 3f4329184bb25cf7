//! Contract records, annualization, and the total order over contracts.
use vstd::prelude::*;
use crate::date::Date;

verus! {

/// Days in the year that annualization divides by.
pub const DAYS_PER_YEAR: i64 = 365;

/// Why a record could not become a contract, or a lookup failed.
#[derive(Clone, Copy, Debug, PartialEq, Eq, Structural)]
pub enum ArrError {
    /// The end date does not come after the start date.
    InvalidContractDuration,
    /// The duration rounds to zero tenths of a year.
    DegenerateDuration,
    /// No customer with the requested identifier is registered.
    UnknownCustomer,
    /// A record's TCV is not a finite amount, so contracts cannot be ordered;
    /// raised where amounts are read in, before they become integers.
    UnorderableContract,
}

/// A raw sales contract: the total contract value (TCV) over a date range.
/// Amounts are integers in the currency's smallest unit.
#[derive(Clone, Debug)]
pub struct ContractRecord {
    pub customer_id: String,
    pub start_date: Date,
    pub end_date: Date,
    pub tcv: i64,
}

/// A contract with its annual contract value (ACV).
#[derive(Clone, Debug)]
pub struct Contract {
    pub customer_id: String,
    pub start_date: Date,
    pub end_date: Date,
    pub tcv: i64,
    pub acv: i128,
}

/// `n / d` rounded to the nearest integer, halves away from zero.
pub open spec fn div_round(n: int, d: int) -> int
    recommends
        d > 0,
{
    if n >= 0 {
        (2 * n + d) / (2 * d)
    } else {
        -((-2 * n + d) / (2 * d))
    }
}

/// A duration of `days` days in tenths of a year, rounded to the nearest tenth.
pub open spec fn duration_tenths(days: int) -> int {
    div_round(days * 10, DAYS_PER_YEAR as int)
}

/// The ACV of a contract from `start` to `end` (day numbers) worth `tcv`:
/// the TCV divided by the duration in years, rounded to the nearest unit.
pub open spec fn annualized(start: int, end: int, tcv: int) -> int {
    div_round(tcv * 10, duration_tenths(end - start))
}

/// Whether a record of this duration is rejected, and with which error.
pub open spec fn annualize_error(start: int, end: int) -> Option<ArrError> {
    if end <= start {
        Some(ArrError::InvalidContractDuration)
    } else if duration_tenths(end - start) == 0 {
        Some(ArrError::DegenerateDuration)
    } else {
        None
    }
}

/// What annualizing a contract from `start` to `end` worth `tcv` gives.
pub open spec fn annualize_outcome(start: int, end: int, tcv: int) -> Result<i128, ArrError> {
    match annualize_error(start, end) {
        Some(e) => Err(e),
        None => Ok(annualized(start, end, tcv) as i128),
    }
}

/// Annualization depends on its inputs alone: two results of annualizing the
/// same start, end and TCV are equal.
pub proof fn lemma_annualize_deterministic(
    start: Date,
    end: Date,
    tcv: i64,
    first: Result<i128, ArrError>,
    second: Result<i128, ArrError>,
)
    requires
        first == annualize_outcome(start.day as int, end.day as int, tcv as int),
        second == annualize_outcome(start.day as int, end.day as int, tcv as int),
    ensures
        first == second,
{
}

/// A duration of 365 days is exactly one year, and one of 183 days rounds
/// to half a year.
pub proof fn lemma_year_rounding()
    ensures
        duration_tenths(365) == 10,
        duration_tenths(183) == 5,
{
    assert(7665int / 730 == 10) by (nonlinear_arith);
    assert(4025int / 730 == 5) by (nonlinear_arith);
}

/// Largest magnitude of a TCV times ten, plus one: a bound on every ACV.
pub open spec fn acv_limit() -> int {
    10 * 0x8000_0000_0000_0000int + 1
}

proof fn lemma_div_round_bound(n: int, d: int)
    requires
        d >= 1,
    ensures
        -(if n >= 0 { n } else { -n }) - 1 <= div_round(n, d) <= (if n >= 0 { n } else { -n }) + 1,
{
    if n >= 0 {
        assert((2 * n + d) / (2 * d) <= n + 1) by (nonlinear_arith)
            requires n >= 0, d >= 1;
        assert((2 * n + d) / (2 * d) >= 0) by (nonlinear_arith)
            requires n >= 0, d >= 1;
    } else {
        let m = -n;
        assert((2 * m + d) / (2 * d) <= m + 1) by (nonlinear_arith)
            requires m >= 0, d >= 1;
        assert((2 * m + d) / (2 * d) >= 0) by (nonlinear_arith)
            requires m >= 0, d >= 1;
    }
}

/// Every accepted contract has an ACV within `acv_limit` of zero.
pub proof fn lemma_annualized_bound(start: int, end: int, tcv: i64)
    requires
        annualize_error(start, end) is None,
    ensures
        -acv_limit() <= annualized(start, end, tcv as int) <= acv_limit(),
{
    lemma_div_round_bound(tcv * 10, duration_tenths(end - start));
}

/// The ACV of a contract from `start_date` to `end_date` worth `tcv`.
/// Fails where the end does not come after the start, or where the duration
/// rounds to zero tenths of a year.
pub fn annualize(start_date: Date, end_date: Date, tcv: i64) -> (r: Result<i128, ArrError>)
    ensures
        r == annualize_outcome(start_date.day as int, end_date.day as int, tcv as int),
        r is Ok ==> -acv_limit() <= r->Ok_0 <= acv_limit(),
{
    let days: i64 = end_date.day as i64 - start_date.day as i64;
    if days <= 0 {
        return Err(ArrError::InvalidContractDuration);
    }
    let tenths: i64 = (2 * (days * 10) + DAYS_PER_YEAR) / (2 * DAYS_PER_YEAR);
    if tenths == 0 {
        return Err(ArrError::DegenerateDuration);
    }
    proof {
        lemma_annualized_bound(start_date.day as int, end_date.day as int, tcv);
    }
    let n: i128 = tcv as i128 * 10;
    let d: i128 = tenths as i128;
    let acv: i128 = if n >= 0 {
        (2 * n + d) / (2 * d)
    } else {
        -((-2 * n + d) / (2 * d))
    };
    Ok(acv)
}

/// The contract that annualizing `r` gives, where it is accepted.
pub open spec fn contract_of(r: ContractRecord) -> Contract {
    Contract {
        customer_id: r.customer_id,
        start_date: r.start_date,
        end_date: r.end_date,
        tcv: r.tcv,
        acv: annualized(r.start_date.day as int, r.end_date.day as int, r.tcv as int) as i128,
    }
}

impl Contract {
    /// Whether the ACV is the annualized TCV of the contract's date range.
    pub open spec fn wf(&self) -> bool {
        &&& annualize_error(self.start_date.day as int, self.end_date.day as int) is None
        &&& self.acv == annualized(self.start_date.day as int, self.end_date.day as int, self.tcv as int)
    }

    /// Annualizes a record into a contract, keeping its fields.
    pub fn from_record(r: ContractRecord) -> (c: Result<Contract, ArrError>)
        ensures
            annualize_error(r.start_date.day as int, r.end_date.day as int) matches Some(e)
                ==> c == Err::<Contract, ArrError>(e),
            annualize_error(r.start_date.day as int, r.end_date.day as int) is None ==> c is Ok,
            c matches Ok(k) ==> k == contract_of(r) && k.wf(),
    {
        match annualize(r.start_date, r.end_date, r.tcv) {
            Ok(acv) => Ok(Contract {
                customer_id: r.customer_id,
                start_date: r.start_date,
                end_date: r.end_date,
                tcv: r.tcv,
                acv,
            }),
            Err(e) => Err(e),
        }
    }
}

} // verus!
