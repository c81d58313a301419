//! Component tags binding an encoded slice to its character table.
//!
//! Each URI component gets a zero-sized marker type implementing
//! [`Encoder`], which resolves to exactly one [`Table`]. A slice validated
//! for one component is a different type from a slice validated for
//! another, so cross-component misuse is a type error.

use vstd::prelude::*;
use crate::table::Table;

verus! {

/// A compile-time tag tying one URI component to its character table.
pub trait Encoder {
    /// The table this component's slices are validated against.
    spec fn table() -> Table;

    /// Returns the table value for use at run time.
    fn table_exec() -> (t: Table)
        ensures
            t == Self::table(),
    ;
}

/// Tag for the scheme component.
#[derive(Clone, Copy, Debug)]
pub struct Scheme;

/// Tag for the userinfo subcomponent of the authority.
#[derive(Clone, Copy, Debug)]
pub struct Userinfo;

/// Tag for the registered-name form of the host subcomponent.
#[derive(Clone, Copy, Debug)]
pub struct RegName;

/// Tag for the port subcomponent of the authority.
#[derive(Clone, Copy, Debug)]
pub struct Port;

/// Tag for the path component.
#[derive(Clone, Copy, Debug)]
pub struct Path;

/// Tag for one segment of a path.
#[derive(Clone, Copy, Debug)]
pub struct PathSegment;

/// Tag for the query component.
#[derive(Clone, Copy, Debug)]
pub struct Query;

/// Tag for the fragment component.
#[derive(Clone, Copy, Debug)]
pub struct Fragment;

impl Encoder for Scheme {
    open spec fn table() -> Table {
        Table::Scheme
    }

    fn table_exec() -> Table {
        Table::Scheme
    }
}

impl Encoder for Userinfo {
    open spec fn table() -> Table {
        Table::Userinfo
    }

    fn table_exec() -> Table {
        Table::Userinfo
    }
}

impl Encoder for RegName {
    open spec fn table() -> Table {
        Table::RegName
    }

    fn table_exec() -> Table {
        Table::RegName
    }
}

impl Encoder for Port {
    open spec fn table() -> Table {
        Table::Port
    }

    fn table_exec() -> Table {
        Table::Port
    }
}

impl Encoder for Path {
    open spec fn table() -> Table {
        Table::Path
    }

    fn table_exec() -> Table {
        Table::Path
    }
}

impl Encoder for PathSegment {
    open spec fn table() -> Table {
        Table::PathSegment
    }

    fn table_exec() -> Table {
        Table::PathSegment
    }
}

impl Encoder for Query {
    open spec fn table() -> Table {
        Table::Query
    }

    fn table_exec() -> Table {
        Table::Query
    }
}

impl Encoder for Fragment {
    open spec fn table() -> Table {
        Table::Fragment
    }

    fn table_exec() -> Table {
        Table::Fragment
    }
}

} // verus!
