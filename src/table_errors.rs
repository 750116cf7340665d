//! Errors of the single-table operations.
use vstd::prelude::*;

verus! {

/// Why a table operation was refused.
#[derive(Debug)]
pub enum Error {
    MismatchedColumnCount,
    ParseError(usize, String),
    NonExistingColumns(Vec<String>),
    NonExistingColumn(String),
    InvalidOperator(String),
    FileError(String),
    InvalidFormat(String),
    MultiplePrimaryKeys,
    DuplicatePrimaryKey,
    NullPrimaryKey,
    CannotBatchUpdatePrimaryKey,
    PrimaryKeyNotProvided(String),
}

/// An error with its text seen as characters.
pub enum ErrorView {
    MismatchedColumnCount,
    ParseError(usize, Seq<char>),
    NonExistingColumns(Seq<Seq<char>>),
    NonExistingColumn(Seq<char>),
    InvalidOperator(Seq<char>),
    FileError(Seq<char>),
    InvalidFormat(Seq<char>),
    MultiplePrimaryKeys,
    DuplicatePrimaryKey,
    NullPrimaryKey,
    CannotBatchUpdatePrimaryKey,
    PrimaryKeyNotProvided(Seq<char>),
}

pub open spec fn string_views(v: Seq<String>) -> Seq<Seq<char>> {
    v.map_values(|s: String| s@)
}

impl View for Error {
    type V = ErrorView;

    open spec fn view(&self) -> ErrorView {
        match self {
            Error::MismatchedColumnCount => ErrorView::MismatchedColumnCount,
            Error::ParseError(i, s) => ErrorView::ParseError(*i, s@),
            Error::NonExistingColumns(v) => ErrorView::NonExistingColumns(string_views(v@)),
            Error::NonExistingColumn(s) => ErrorView::NonExistingColumn(s@),
            Error::InvalidOperator(s) => ErrorView::InvalidOperator(s@),
            Error::FileError(s) => ErrorView::FileError(s@),
            Error::InvalidFormat(s) => ErrorView::InvalidFormat(s@),
            Error::MultiplePrimaryKeys => ErrorView::MultiplePrimaryKeys,
            Error::DuplicatePrimaryKey => ErrorView::DuplicatePrimaryKey,
            Error::NullPrimaryKey => ErrorView::NullPrimaryKey,
            Error::CannotBatchUpdatePrimaryKey => ErrorView::CannotBatchUpdatePrimaryKey,
            Error::PrimaryKeyNotProvided(s) => ErrorView::PrimaryKeyNotProvided(s@),
        }
    }
}

} // verus!
