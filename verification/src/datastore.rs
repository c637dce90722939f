//! The auxiliary store: small records under named columns, apart from the
//! blocks.
//!
//! The records live in a columnar key-value database that the caller drives.
//! This module says which request each operation makes of the database, and
//! what each outcome means.

use crate::fs::{Error, IoFailure};
use vstd::prelude::*;

verus! {

/// A column of the store.
#[derive(Debug, PartialEq, Eq, Structural, Clone, Copy)]
pub enum Column {
    /// Mutable names that point to identifiers.
    Ipns,
}

/// The name under which the database knows `column`.
pub open spec fn column_name(column: Column) -> Seq<char> {
    match column {
        Column::Ipns => seq!['i', 'p', 'n', 's'],
    }
}

impl Column {
    /// The name under which the database knows the column.
    pub fn resolve(&self) -> (r: &'static str)
        ensures
            r@ == column_name(*self),
    {
        match self {
            Column::Ipns => {
                proof {
                    reveal_strlit("ipns");
                }
                assert("ipns"@ =~= column_name(Column::Ipns));
                "ipns"
            },
        }
    }
}

/// What the store asks of the database.
#[derive(Debug, PartialEq, Eq)]
pub enum DataStoreRequest {
    /// Open the database at `path` with these columns, creating it and them
    /// where they are missing.
    Open {
        path: String,
        columns: Vec<&'static str>,
        create_if_missing: bool,
        create_missing_column_families: bool,
    },
    /// Look `key` up in `column`.
    Get { column: &'static str, key: Vec<u8> },
    /// Set `key` in `column` to `value`.
    Put { column: &'static str, key: Vec<u8>, value: Vec<u8> },
    /// Delete `key` from `column`.
    Delete { column: &'static str, key: Vec<u8> },
}

/// The store of records. It is closed until its opening has ended well.
#[derive(Debug)]
pub struct RocksDataStore {
    path: String,
    opened: bool,
}

/// What a failure of the database is reported as.
pub open spec fn failed(message: String) -> Error {
    Error::Io(IoFailure::Other(message))
}

impl RocksDataStore {
    /// Whether the store is open.
    pub closed spec fn is_open(&self) -> bool {
        self.opened
    }

    /// Where the database lies.
    pub closed spec fn location(&self) -> Seq<char> {
        self.path@
    }

    /// A closed store for the database at `path`.
    pub fn new(path: String) -> (r: RocksDataStore)
        ensures
            !r.is_open(),
            r.location() == path@,
    {
        RocksDataStore { path, opened: false }
    }

    /// Prepares the store. There is nothing to prepare.
    pub fn init(&self) -> (r: Result<(), Error>)
        ensures
            r is Ok,
    {
        Ok(())
    }

    /// Whether the store is open.
    pub fn opened(&self) -> (r: bool)
        ensures
            r == self.is_open(),
    {
        self.opened
    }

    /// Asks to open the database, with the column of each `Column`, creating
    /// what is missing.
    pub fn open(&self) -> (request: DataStoreRequest)
        ensures
            request matches DataStoreRequest::Open {
                path,
                columns,
                create_if_missing,
                create_missing_column_families,
            } && path@ == self.location() && columns@.len() == 1 && columns@[0]@ == column_name(
                Column::Ipns,
            ) && create_if_missing && create_missing_column_families,
    {
        let mut columns: Vec<&'static str> = Vec::new();
        columns.push(Column::Ipns.resolve());
        DataStoreRequest::Open {
            path: self.path.clone(),
            columns,
            create_if_missing: true,
            create_missing_column_families: true,
        }
    }

    /// Ends the opening with its outcome: the store is open once the database
    /// is.
    pub fn completed_open(&mut self, outcome: Result<(), String>) -> (r: Result<(), Error>)
        ensures
            final(self).location() == old(self).location(),
            match outcome {
                Ok(()) => r is Ok && final(self).is_open(),
                Err(message) => r == Err::<(), Error>(failed(message)) && final(self).is_open()
                    == old(self).is_open(),
            },
    {
        match outcome {
            Ok(()) => {
                self.opened = true;
                Ok(())
            },
            Err(message) => Err(Error::Io(IoFailure::Other(message))),
        }
    }

    /// Asks whether `column` holds `key`: the key is to be looked up.
    pub fn contains(&self, column: Column, key: &[u8]) -> (request: DataStoreRequest)
        requires
            self.is_open(),
        ensures
            request matches DataStoreRequest::Get { column: name, key: k } && name@ == column_name(
                column,
            ) && k@ == key@,
    {
        DataStoreRequest::Get { column: column.resolve(), key: copy(key) }
    }

    /// Ends `contains` with the outcome of the lookup.
    pub fn completed_contains(&self, outcome: Result<Option<Vec<u8>>, String>) -> (r: Result<
        bool,
        Error,
    >)
        ensures
            match outcome {
                Ok(found) => r == Ok::<bool, Error>(found is Some),
                Err(message) => r == Err::<bool, Error>(failed(message)),
            },
    {
        match outcome {
            Ok(found) => Ok(found.is_some()),
            Err(message) => Err(Error::Io(IoFailure::Other(message))),
        }
    }

    /// Asks for the record of `key` in `column`: the key is to be looked up.
    pub fn get(&self, column: Column, key: &[u8]) -> (request: DataStoreRequest)
        requires
            self.is_open(),
        ensures
            request matches DataStoreRequest::Get { column: name, key: k } && name@ == column_name(
                column,
            ) && k@ == key@,
    {
        DataStoreRequest::Get { column: column.resolve(), key: copy(key) }
    }

    /// Ends `get` with the outcome of the lookup.
    pub fn completed_get(&self, outcome: Result<Option<Vec<u8>>, String>) -> (r: Result<
        Option<Vec<u8>>,
        Error,
    >)
        ensures
            match outcome {
                Ok(found) => r == Ok::<Option<Vec<u8>>, Error>(found),
                Err(message) => r == Err::<Option<Vec<u8>>, Error>(failed(message)),
            },
    {
        match outcome {
            Ok(found) => Ok(found),
            Err(message) => Err(Error::Io(IoFailure::Other(message))),
        }
    }

    /// Asks to set the record of `key` in `column` to `value`.
    pub fn put(&self, column: Column, key: &[u8], value: &[u8]) -> (request: DataStoreRequest)
        requires
            self.is_open(),
        ensures
            request matches DataStoreRequest::Put { column: name, key: k, value: v } && name@
                == column_name(column) && k@ == key@ && v@ == value@,
    {
        DataStoreRequest::Put { column: column.resolve(), key: copy(key), value: copy(value) }
    }

    /// Asks to delete the record of `key` in `column`.
    pub fn remove(&self, column: Column, key: &[u8]) -> (request: DataStoreRequest)
        requires
            self.is_open(),
        ensures
            request matches DataStoreRequest::Delete { column: name, key: k } && name@
                == column_name(column) && k@ == key@,
    {
        DataStoreRequest::Delete { column: column.resolve(), key: copy(key) }
    }

    /// Ends `put` or `remove` with the outcome of the writing.
    pub fn completed_write(&self, outcome: Result<(), String>) -> (r: Result<(), Error>)
        ensures
            match outcome {
                Ok(()) => r is Ok,
                Err(message) => r == Err::<(), Error>(failed(message)),
            },
    {
        match outcome {
            Ok(()) => Ok(()),
            Err(message) => Err(Error::Io(IoFailure::Other(message))),
        }
    }
}

/// The bytes of `bytes`, in a vector of their own.
fn copy(bytes: &[u8]) -> (r: Vec<u8>)
    ensures
        r@ == bytes@,
{
    let mut r: Vec<u8> = Vec::new();
    let mut i: usize = 0;
    while i < bytes.len()
        invariant
            i <= bytes.len(),
            r@ == bytes@.subrange(0, i as int),
        decreases bytes.len() - i,
    {
        r.push(bytes[i]);
        assert(r@ =~= bytes@.subrange(0, i + 1));
        i = i + 1;
    }
    assert(bytes@.subrange(0, i as int) =~= bytes@);
    r
}

} // verus!
