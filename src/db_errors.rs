//! Errors of the multi-table operations.
use crate::table_errors;
use crate::table_errors::{string_views, ErrorView};
use vstd::prelude::*;

verus! {

/// Why a database operation was refused; table-level errors pass through
/// unchanged inside `TableError`.
#[derive(Debug)]
pub enum Error {
    TableAlreadyExists(String),
    TableNotFound(String),
    MultiplePrimaryKeys,
    ReferencedTableNotFound(String),
    ReferencedColumnNotFound(String, String),
    ReferencedColumnNotPrimaryKey(String, String),
    NullForeignKey(String),
    ForeignKeyViolation(String, String, String),
    MissingForeignKeyColumns(Vec<String>),
    ParseError(usize, String),
    TableError(table_errors::Error),
}

/// A database error with its text seen as characters.
pub enum DbErrorView {
    TableAlreadyExists(Seq<char>),
    TableNotFound(Seq<char>),
    MultiplePrimaryKeys,
    ReferencedTableNotFound(Seq<char>),
    ReferencedColumnNotFound(Seq<char>, Seq<char>),
    ReferencedColumnNotPrimaryKey(Seq<char>, Seq<char>),
    NullForeignKey(Seq<char>),
    ForeignKeyViolation(Seq<char>, Seq<char>, Seq<char>),
    MissingForeignKeyColumns(Seq<Seq<char>>),
    ParseError(usize, Seq<char>),
    TableError(ErrorView),
}

impl View for Error {
    type V = DbErrorView;

    open spec fn view(&self) -> DbErrorView {
        match self {
            Error::TableAlreadyExists(s) => DbErrorView::TableAlreadyExists(s@),
            Error::TableNotFound(s) => DbErrorView::TableNotFound(s@),
            Error::MultiplePrimaryKeys => DbErrorView::MultiplePrimaryKeys,
            Error::ReferencedTableNotFound(s) => DbErrorView::ReferencedTableNotFound(s@),
            Error::ReferencedColumnNotFound(t, c) => DbErrorView::ReferencedColumnNotFound(t@, c@),
            Error::ReferencedColumnNotPrimaryKey(t, c) => DbErrorView::ReferencedColumnNotPrimaryKey(
                t@,
                c@,
            ),
            Error::NullForeignKey(s) => DbErrorView::NullForeignKey(s@),
            Error::ForeignKeyViolation(v, c, t) => DbErrorView::ForeignKeyViolation(v@, c@, t@),
            Error::MissingForeignKeyColumns(v) => DbErrorView::MissingForeignKeyColumns(
                string_views(v@),
            ),
            Error::ParseError(i, s) => DbErrorView::ParseError(*i, s@),
            Error::TableError(e) => DbErrorView::TableError(e@),
        }
    }
}

impl From<table_errors::Error> for Error {
    fn from(err: table_errors::Error) -> (r: Error) {
        Error::TableError(err)
    }
}

impl vstd::std_specs::convert::FromSpecImpl<table_errors::Error> for Error {
    open spec fn obeys_from_spec() -> bool {
        true
    }

    open spec fn from_spec(err: table_errors::Error) -> Error {
        Error::TableError(err)
    }
}

} // verus!
