//! Annual recurring revenue (ARR) timelines from SaaS sales contracts.
//!
//! Contracts are annualized into an annual contract value, grouped per
//! customer, put in a total order, and walked to derive the events through
//! which each customer's ARR changed.

pub mod date;
pub mod contract;
pub mod order;
pub mod timeline;
pub mod registry;

pub use date::Date;
pub use contract::{annualize, ArrError, Contract, ContractRecord};
pub use order::sort_contracts;
pub use registry::{Customer, CustomerArrEvents, SaasData};
pub use timeline::{build_timeline, ArrEvent, ArrEventType};
