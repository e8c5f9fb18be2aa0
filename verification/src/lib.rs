//! A bounded least-recently-used key/value cache whose contents survive
//! otherwise independent invocations through a textual snapshot record, with
//! a request dispatcher over it and a packager that bundles the running
//! executable together with the latest snapshot for redeployment.

pub mod cache;
pub mod dispatch;
pub mod packager;
pub mod snapshot;
pub mod store;
pub mod text;
