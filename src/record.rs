use vstd::prelude::*;

verus! {

/// One extracted row: an identifier, a number, and the moment (in
/// microseconds since the Unix epoch) at which the row was closed.
#[derive(Debug, Clone)]
pub struct Record {
    pub id: u32,
    pub number: String,
    pub observed_at: i64,
}

/// The mathematical value of a record.
pub struct RecordView {
    pub id: u32,
    pub number: Seq<char>,
    pub observed_at: i64,
}

impl View for Record {
    type V = RecordView;

    open spec fn view(&self) -> RecordView {
        RecordView { id: self.id, number: self.number@, observed_at: self.observed_at }
    }
}

impl Record {
    pub fn new(id: u32, number: String, observed_at: i64) -> (r: Record)
        ensures
            r.id == id,
            r.number@ == number@,
            r.observed_at == observed_at,
    {
        Record { id, number, observed_at }
    }

    /// A copy of this record, field by field.
    pub fn duplicate(&self) -> (r: Record)
        ensures
            r@ == self@,
    {
        Record { id: self.id, number: self.number.clone(), observed_at: self.observed_at }
    }
}

/// The views of a sequence of records.
pub open spec fn views_of(rs: Seq<Record>) -> Seq<RecordView> {
    rs.map_values(|r: Record| r@)
}

} // verus!
