//! The customer registry: contracts grouped by customer, and their timelines.
use vstd::prelude::*;
use crate::contract::{annualize_error, contract_of, ArrError, Contract, ContractRecord};
use crate::date::Date;
use crate::order::{is_sorted, sort_contracts, sorts_to};
use crate::timeline::{build_timeline, is_chronological, timeline, acv_fits, ArrEvent};

verus! {

broadcast use vstd::seq_lib::group_to_multiset_ensures;

/// A customer and the contracts it owns.
pub struct Customer {
    pub id: String,
    pub contracts: Vec<Contract>,
}

/// The ARR events of one customer, in timeline order.
pub struct CustomerArrEvents {
    pub events: Vec<ArrEvent>,
}

/// Every contract carries the ACV of its own record.
pub open spec fn all_wf(cs: Seq<Contract>) -> bool {
    forall|k: int| 0 <= k < cs.len() ==> (#[trigger] cs[k]).wf()
}

proof fn lemma_wf_fits(cs: Seq<Contract>)
    requires
        all_wf(cs),
    ensures
        acv_fits(cs),
        forall|k: int| 0 <= k < cs.len() ==> (#[trigger] cs[k]).start_date.day < cs[k].end_date.day,
{
    assert forall|k: int| 0 <= k < cs.len() implies -crate::contract::acv_limit() <= #[trigger] cs[k].acv
        <= crate::contract::acv_limit() by {
        crate::contract::lemma_annualized_bound(cs[k].start_date.day as int, cs[k].end_date.day as int, cs[k].tcv);
    }
}

proof fn lemma_wf_permuted(a: Seq<Contract>, b: Seq<Contract>)
    requires
        all_wf(a),
        a.to_multiset() == b.to_multiset(),
    ensures
        all_wf(b),
{
    assert forall|k: int| 0 <= k < b.len() implies (#[trigger] b[k]).wf() by {
        assert(b.contains(b[k]));
        assert(a.to_multiset().count(b[k]) > 0);
        let j = choose|j: int| 0 <= j < a.len() && a[j] == b[k];
        assert(a[j].wf());
    }
}

impl Customer {
    /// A customer with no contracts.
    pub fn new(customer_id: &str) -> (r: Customer)
        ensures
            r.id@ == customer_id@,
            r.contracts@.len() == 0,
    {
        Customer { id: customer_id.to_owned(), contracts: Vec::new() }
    }

    /// Annualizes `record` and appends the contract; fails, leaving the
    /// customer unchanged, where the record is rejected.
    pub fn add_contract_record(&mut self, record: ContractRecord) -> (r: Result<(), ArrError>)
        ensures
            annualize_error(record.start_date.day as int, record.end_date.day as int) matches Some(e) ==> {
                &&& r == Err::<(), ArrError>(e)
                &&& *final(self) == *old(self)
            },
            annualize_error(record.start_date.day as int, record.end_date.day as int) is None ==> {
                &&& r is Ok
                &&& final(self).id == old(self).id
                &&& final(self).contracts@ == old(self).contracts@.push(contract_of(record))
            },
    {
        match Contract::from_record(record) {
            Ok(c) => {
                self.contracts.push(c);
                Ok(())
            },
            Err(e) => Err(e),
        }
    }
}

impl CustomerArrEvents {
    /// Sorts the customer's contracts into the contract order and derives
    /// its ARR timeline as observed up to `as_of`.
    pub fn new(cust: &mut Customer, as_of: Date) -> (r: CustomerArrEvents)
        requires
            all_wf(old(cust).contracts@),
        ensures
            final(cust).id == old(cust).id,
            sorts_to(old(cust).contracts@, final(cust).contracts@),
            r.events@ == timeline(final(cust).contracts@, as_of),
            is_chronological(r.events@),
    {
        let mut taken: Vec<Contract> = Vec::new();
        std::mem::swap(&mut cust.contracts, &mut taken);
        let sorted = sort_contracts(taken);
        proof {
            lemma_wf_permuted(old(cust).contracts@, sorted@);
            lemma_wf_fits(sorted@);
            crate::timeline::lemma_timeline_chronological(sorted@, as_of);
        }
        cust.contracts = sorted;
        let events = build_timeline(&cust.contracts, as_of);
        CustomerArrEvents { events }
    }
}

} // verus!

verus! {

/// The contracts that the records of customer `id` become, in record order.
pub open spec fn contracts_of(rs: Seq<ContractRecord>, id: Seq<char>) -> Seq<Contract>
    decreases rs.len(),
{
    if rs.len() == 0 {
        seq![]
    } else {
        let before = contracts_of(rs.drop_last(), id);
        if rs.last().customer_id@ == id {
            before.push(contract_of(rs.last()))
        } else {
            before
        }
    }
}

/// The error of the first record that annualization rejects, if any.
pub open spec fn first_error(rs: Seq<ContractRecord>) -> Option<ArrError>
    decreases rs.len(),
{
    if rs.len() == 0 {
        None
    } else if first_error(rs.drop_last()) is Some {
        first_error(rs.drop_last())
    } else {
        annualize_error(rs.last().start_date.day as int, rs.last().end_date.day as int)
    }
}

/// Some record belongs to customer `id`.
pub open spec fn has_records(rs: Seq<ContractRecord>, id: Seq<char>) -> bool {
    exists|k: int| 0 <= k < rs.len() && (#[trigger] rs[k]).customer_id@ == id
}

/// Customers are registered under distinct ids.
pub open spec fn ids_distinct(cs: Seq<Customer>) -> bool {
    forall|i: int, j: int| 0 <= i < j < cs.len() ==> (#[trigger] cs[i]).id@ != (#[trigger] cs[j]).id@
}

/// Contracts grouped by customer.
pub struct SaasData {
    pub customers: Vec<Customer>,
}

impl SaasData {
    /// Distinct customer ids, each customer's contracts annualized and sorted.
    pub open spec fn wf(&self) -> bool {
        &&& ids_distinct(self.customers@)
        &&& forall|i: int| 0 <= i < self.customers@.len() ==> {
            &&& all_wf((#[trigger] self.customers@[i]).contracts@)
            &&& is_sorted(self.customers@[i].contracts@)
        }
    }

    /// `self` registers exactly the customers of `rs`, each with the
    /// contracts of its records, sorted.
    pub open spec fn holds_records(&self, rs: Seq<ContractRecord>) -> bool {
        &&& forall|id: Seq<char>| has_records(rs, id) <==>
            exists|i: int| 0 <= i < self.customers@.len() && (#[trigger] self.customers@[i]).id@ == id
        &&& forall|i: int| 0 <= i < self.customers@.len() ==>
            sorts_to(contracts_of(rs, (#[trigger] self.customers@[i]).id@), self.customers@[i].contracts@)
    }

    /// Index of the customer registered under `customer_id`, if any.
    fn position(&self, customer_id: &String) -> (r: Option<usize>)
        requires
            ids_distinct(self.customers@),
        ensures
            r matches Some(j) ==> j < self.customers@.len() && self.customers@[j as int].id@ == customer_id@,
            r is None ==> forall|j: int| 0 <= j < self.customers@.len() ==> (#[trigger] self.customers@[j]).id@ != customer_id@,
    {
        let mut j: usize = 0;
        while j < self.customers.len()
            invariant
                j <= self.customers@.len(),
                forall|k: int| 0 <= k < j ==> (#[trigger] self.customers@[k]).id@ != customer_id@,
            decreases self.customers@.len() - j,
        {
            if self.customers[j].id == *customer_id {
                return Some(j);
            }
            j = j + 1;
        }
        None
    }

    /// Groups the records by customer, annualizing each, then sorts each
    /// customer's contracts. Fails with the error of the first rejected record.
    pub fn new(records: Vec<ContractRecord>) -> (r: Result<SaasData, ArrError>)
        ensures
            first_error(records@) matches Some(e) ==> r == Err::<SaasData, ArrError>(e),
            first_error(records@) is None ==> r is Ok,
            r matches Ok(d) ==> d.wf() && d.holds_records(records@),
    {
        let ghost orig = records@;
        let n = records.len();
        let mut rest = records;
        let mut data = SaasData { customers: Vec::new() };
        let mut i: usize = 0;
        while i < n
            invariant
                n == orig.len(),
                orig == records@,
                i <= n,
                rest@ == orig.skip(i as int),
                first_error(orig.take(i as int)) is None,
                ids_distinct(data.customers@),
                forall|k: int| 0 <= k < data.customers@.len() ==> {
                    &&& (#[trigger] data.customers@[k]).contracts@ == contracts_of(orig.take(i as int), data.customers@[k].id@)
                    &&& all_wf(data.customers@[k].contracts@)
                },
                forall|id: Seq<char>| has_records(orig.take(i as int), id) <==>
                    exists|k: int| 0 <= k < data.customers@.len() && (#[trigger] data.customers@[k]).id@ == id,
            decreases n - i,
        {
            let record = rest.remove(0);
            let ghost prefix = orig.take(i as int);
            let ghost next = orig.take(i as int + 1);
            let ghost start = data.customers@;
            assert(record == orig[i as int]);
            assert(rest@ == orig.skip(i as int + 1));
            assert(next.drop_last() == prefix);
            assert(next.last() == record);
            let contract = match Contract::from_record(record) {
                Ok(c) => c,
                Err(e) => {
                    proof {
                        assert(first_error(next) == annualize_error(record.start_date.day as int, record.end_date.day as int));
                        lemma_first_error_extends(orig, i as int + 1);
                    }
                    return Err(e);
                },
            };
            let id = contract.customer_id.clone();
            let j = match data.position(&id) {
                Some(j) => j,
                None => {
                    data.customers.push(Customer::new(id.as_str()));
                    proof {
                        assert(contracts_of(prefix, id@) == Seq::<Contract>::empty()) by {
                            if contracts_of(prefix, id@).len() > 0 {
                                lemma_contracts_of_has(prefix, id@);
                                let k = choose|k: int| 0 <= k < start.len() && (#[trigger] start[k]).id@ == id@;
                                assert(data.customers@[k] == start[k]);
                            }
                        }
                    }
                    data.customers.len() - 1
                },
            };
            let ghost mid = data.customers@;
            assert(mid.len() == start.len() || mid.len() == start.len() + 1);
            assert(forall|k: int| 0 <= k < start.len() ==> mid[k] == start[k]);
            assert(mid.len() == start.len() + 1 ==> mid[start.len() as int].id@ == id@);
            assert(ids_distinct(mid));
            data.customers[j].contracts.push(contract);
            proof {
                let fin = data.customers@;
                assert(forall|k: int| 0 <= k < fin.len() ==> (#[trigger] fin[k]).id == mid[k].id);
                assert(ids_distinct(fin));
                assert forall|k: int| 0 <= k < fin.len() implies
                    (#[trigger] fin[k]).contracts@ == contracts_of(next, fin[k].id@)
                    && all_wf(fin[k].contracts@) by {
                    if k != j {
                        assert(fin[k] == mid[k]);
                        assert(mid[k].id@ != id@);
                    }
                }
                assert forall|cid: Seq<char>| has_records(next, cid) <==>
                    exists|k: int| 0 <= k < fin.len() && (#[trigger] fin[k]).id@ == cid by {
                    if has_records(next, cid) {
                        let q = choose|q: int| 0 <= q < next.len() && (#[trigger] next[q]).customer_id@ == cid;
                        if q < i {
                            assert(prefix[q] == next[q]);
                            assert(has_records(prefix, cid));
                            let k = choose|k: int| 0 <= k < start.len() && (#[trigger] start[k]).id@ == cid;
                            assert(fin[k].id@ == cid);
                        } else {
                            assert(fin[j as int].id@ == cid);
                        }
                    }
                    if exists|k: int| 0 <= k < fin.len() && (#[trigger] fin[k]).id@ == cid {
                        let k = choose|k: int| 0 <= k < fin.len() && (#[trigger] fin[k]).id@ == cid;
                        if cid == id@ {
                            assert(next[i as int].customer_id@ == cid);
                        } else {
                            assert(k < start.len());
                            assert(start[k].id@ == cid);
                            assert(has_records(prefix, cid));
                            let q = choose|q: int| 0 <= q < prefix.len() && (#[trigger] prefix[q]).customer_id@ == cid;
                            assert(next[q] == prefix[q]);
                        }
                    }
                }
            }
            i = i + 1;
        }
        assert(orig.take(n as int) == orig);
        let ghost grouped = data.customers@;
        let m = data.customers.len();
        let mut pending = data.customers;
        let mut customers: Vec<Customer> = Vec::new();
        let mut k: usize = 0;
        while k < m
            invariant
                m == grouped.len(),
                k <= m,
                pending@ == grouped.skip(k as int),
                customers@.len() == k,
                forall|q: int| 0 <= q < m ==> {
                    &&& (#[trigger] grouped[q]).contracts@ == contracts_of(orig, grouped[q].id@)
                    &&& all_wf(grouped[q].contracts@)
                },
                forall|q: int| 0 <= q < k ==> {
                    &&& (#[trigger] customers@[q]).id == grouped[q].id
                    &&& sorts_to(grouped[q].contracts@, customers@[q].contracts@)
                    &&& all_wf(customers@[q].contracts@)
                },
            decreases m - k,
        {
            let cust = pending.remove(0);
            assert(cust == grouped[k as int]);
            assert(pending@ == grouped.skip(k as int + 1));
            let Customer { id, contracts } = cust;
            let sorted = sort_contracts(contracts);
            proof {
                lemma_wf_permuted(grouped[k as int].contracts@, sorted@);
            }
            customers.push(Customer { id, contracts: sorted });
            k = k + 1;
        }
        let result = SaasData { customers };
        assert forall|cid: Seq<char>| has_records(orig, cid) implies
            exists|q: int| 0 <= q < result.customers@.len() && (#[trigger] result.customers@[q]).id@ == cid by {
            let q = choose|q: int| 0 <= q < grouped.len() && (#[trigger] grouped[q]).id@ == cid;
            assert(result.customers@[q].id@ == cid);
        }
        assert forall|cid: Seq<char>| (exists|q: int| 0 <= q < result.customers@.len() && (#[trigger] result.customers@[q]).id@ == cid)
            implies has_records(orig, cid) by {
            let q = choose|q: int| 0 <= q < result.customers@.len() && (#[trigger] result.customers@[q]).id@ == cid;
            assert(grouped[q].id@ == cid);
        }
        assert(ids_distinct(result.customers@)) by {
            assert forall|a: int, b: int| 0 <= a < b < result.customers@.len() implies
                (#[trigger] result.customers@[a]).id@ != (#[trigger] result.customers@[b]).id@ by {
                assert(grouped[a].id@ != grouped[b].id@);
            }
        }
        Ok(result)
    }

    /// The timeline, observed up to `as_of`, of the customer registered under
    /// `customer_id`; `UnknownCustomer` where there is none.
    pub fn customer_timeline(&self, customer_id: &str, as_of: Date) -> (r: Result<Vec<ArrEvent>, ArrError>)
        requires
            self.wf(),
        ensures
            (forall|j: int| 0 <= j < self.customers@.len() ==> (#[trigger] self.customers@[j]).id@ != customer_id@)
                ==> r == Err::<Vec<ArrEvent>, ArrError>(ArrError::UnknownCustomer),
            forall|j: int| 0 <= j < self.customers@.len() && (#[trigger] self.customers@[j]).id@ == customer_id@
                ==> r is Ok && r->Ok_0@ == timeline(self.customers@[j].contracts@, as_of),
    {
        let id = customer_id.to_owned();
        match self.position(&id) {
            Some(j) => {
                proof {
                    lemma_wf_fits(self.customers@[j as int].contracts@);
                }
                Ok(build_timeline(&self.customers[j].contracts, as_of))
            },
            None => Err(ArrError::UnknownCustomer),
        }
    }

    /// Every customer's id with its timeline observed up to `as_of`, in
    /// registry order.
    pub fn timelines(&self, as_of: Date) -> (r: Vec<(String, Vec<ArrEvent>)>)
        requires
            self.wf(),
        ensures
            r@.len() == self.customers@.len(),
            forall|j: int| 0 <= j < r@.len() ==> {
                &&& (#[trigger] r@[j]).0@ == self.customers@[j].id@
                &&& r@[j].1@ == timeline(self.customers@[j].contracts@, as_of)
            },
    {
        let mut out: Vec<(String, Vec<ArrEvent>)> = Vec::new();
        let mut j: usize = 0;
        while j < self.customers.len()
            invariant
                self.wf(),
                j <= self.customers@.len(),
                out@.len() == j,
                forall|q: int| 0 <= q < j ==> {
                    &&& (#[trigger] out@[q]).0@ == self.customers@[q].id@
                    &&& out@[q].1@ == timeline(self.customers@[q].contracts@, as_of)
                },
            decreases self.customers@.len() - j,
        {
            let cust = &self.customers[j];
            proof {
                lemma_wf_fits(cust.contracts@);
            }
            let events = build_timeline(&cust.contracts, as_of);
            out.push((cust.id.clone(), events));
            j = j + 1;
        }
        out
    }
}

proof fn lemma_first_error_extends(rs: Seq<ContractRecord>, m: int)
    requires
        0 <= m <= rs.len(),
        first_error(rs.take(m)) is Some,
    ensures
        first_error(rs) == first_error(rs.take(m)),
    decreases rs.len(),
{
    if m == rs.len() {
        assert(rs.take(m) == rs);
    } else {
        assert(rs.drop_last().take(m) == rs.take(m));
        lemma_first_error_extends(rs.drop_last(), m);
    }
}

proof fn lemma_contracts_of_has(rs: Seq<ContractRecord>, id: Seq<char>)
    requires
        contracts_of(rs, id).len() > 0,
    ensures
        has_records(rs, id),
    decreases rs.len(),
{
    if rs.len() > 0 {
        if rs.last().customer_id@ == id {
            assert(rs[rs.len() - 1].customer_id@ == id);
        } else {
            lemma_contracts_of_has(rs.drop_last(), id);
            let k = choose|k: int| 0 <= k < rs.len() - 1 && (#[trigger] rs.drop_last()[k]).customer_id@ == id;
            assert(rs[k] == rs.drop_last()[k]);
        }
    }
}

} // verus!
