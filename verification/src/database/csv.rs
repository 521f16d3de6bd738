//! A source of users, alerts and ratings kept in CSV files.
use vstd::prelude::*;

verus! {

/// Where the CSV files of users, ratings and alerts are.
pub struct CSVDatabase<'f> {
    users_filepath: &'f str,
    ratings_filepath: &'f str,
    alerts_filepath: &'f str,
}

impl<'f> CSVDatabase<'f> {
    /// The path of the users file.
    pub closed spec fn users_path(&self) -> Seq<char> {
        self.users_filepath@
    }

    /// The path of the ratings file.
    pub closed spec fn ratings_path(&self) -> Seq<char> {
        self.ratings_filepath@
    }

    /// The path of the alerts file.
    pub closed spec fn alerts_path(&self) -> Seq<char> {
        self.alerts_filepath@
    }

    /// A source reading the three given files.
    pub fn new(users_filepath: &'f str, ratings_filepath: &'f str, alerts_filepath: &'f str) -> (res: Self)
        ensures
            res.users_path() == users_filepath@,
            res.ratings_path() == ratings_filepath@,
            res.alerts_path() == alerts_filepath@,
    {
        Self { users_filepath, ratings_filepath, alerts_filepath }
    }

    /// The path of the users file.
    pub fn users_filepath(&self) -> (res: &'f str)
        ensures
            res@ == self.users_path(),
    {
        self.users_filepath
    }

    /// The path of the ratings file.
    pub fn ratings_filepath(&self) -> (res: &'f str)
        ensures
            res@ == self.ratings_path(),
    {
        self.ratings_filepath
    }

    /// The path of the alerts file.
    pub fn alerts_filepath(&self) -> (res: &'f str)
        ensures
            res@ == self.alerts_path(),
    {
        self.alerts_filepath
    }
}

} // verus!
